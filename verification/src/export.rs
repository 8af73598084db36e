//! The preview export as a whole: what is asked for, what was captured, and the
//! charts composed from it.
//!
//! Pages are taken one at a time, so that a single page image is in memory. No
//! verdict data is read here: set membership is decided upstream, by the
//! generated manifest.
use crate::analyze::{geometry, model_spec};
use crate::catalog::Candidate;
use crate::chart::{
    compose, compose_fault, exports_are_deterministic, is_export, is_meta, same_crops_same_fault,
    same_export, Export,
};
use crate::depiction::legend_names_platforms;
use crate::geom::{cleaned, GeometryError};
use crate::grid::{
    absent, are_crops, check_captured, check_labels, check_sidecars, crops_fit, crops_ok,
    crop_place, crop_places_lie_inside, crops_unique, display_key, first_with_id, inputs_fault, manifest_ids_are_known, manifest_order_is_irrelevant,
    page_crops, pages_fix_their_crops, put_crop, resolve_targets, same_crop, same_crops,
    same_crops_stay_the_same, skewed, targets_are_sorted_and_complete, targets_spec,
    targets_stand_first, the_latest_crop_counts, with_crop, Crop, GridError, GridFault, PLATFORMS,
};
use crate::manifest::{previous_ids, scraped, texts};
use crate::raster::{Gray, GrayImage};
use crate::schema::{page_entries, RowEntry, Sidecar};
use crate::sort::as_ints;
use crate::text::{lines, listed};
use std::collections::HashMap;
use vstd::prelude::*;

verus! {

/// Why a captured page is refused.
#[derive(Clone, Copy, Debug, PartialEq, Eq, Structural)]
pub enum CaptureError {
    /// The capture shows nothing plausible.
    Implausible,
    /// The rows of the page could not be located.
    Geometry(GeometryError),
}

/// An export under way.
#[derive(Debug)]
pub struct Job {
    /// The ids that the manifest lists.
    pub ids: Vec<String>,
    /// The icons to render: positions in the catalog, in display order.
    pub targets: Vec<usize>,
    /// The crops taken so far.
    pub crops: Vec<Crop>,
}

/// What is wrong with a request, if anything: its inputs, else its manifest.
pub open spec fn request_fault(
    catalog: Seq<Candidate>,
    labels: Seq<String>,
    ids: Seq<String>,
    path: Seq<char>,
) -> Option<GridFault> {
    if inputs_fault(labels) is Some {
        inputs_fault(labels)
    } else {
        match targets_spec(catalog, ids, path) {
            Ok(_) => None,
            Err(e) => Some(e),
        }
    }
}

/// What is wrong with the captures, if anything: they show different renders, or
/// lack an icon.
pub open spec fn captures_fault(
    catalog: Seq<Candidate>,
    targets: Seq<int>,
    sidecars: Seq<&Sidecar>,
) -> Option<GridFault> {
    if skewed(sidecars, 0) is Some {
        skewed(sidecars, 0)
    } else {
        absent(catalog, targets, sidecars[crate::grid::CANONICAL as int].rows@, 0)
    }
}

/// Crops after some more, each in place of the platform's earlier one of its id.
pub open spec fn with_crops(crops: Seq<Crop>, more: Seq<Crop>) -> Seq<Crop>
    decreases more.len(),
{
    if more.len() == 0 {
        crops
    } else {
        with_crop(with_crops(crops, more.drop_last()), more.last())
    }
}

/// The wanted crops of the page, in order, were added
/// to those of before.
pub open spec fn page_added(
    before: Seq<Crop>,
    after: Seq<Crop>,
    g: Gray,
    rows: Seq<RowEntry>,
    ids: Seq<String>,
    platform: usize,
) -> bool {
    match geometry(cleaned(g, model_spec(g)), model_spec(g), rows) {
        Ok(v) => exists|more: Seq<Crop>|
            after == #[trigger] with_crops(before, more) && are_crops(
                more,
                platform,
                g,
                v.0,
                v.1,
                rows,
                ids,
            ),
        Err(_) => false,
    }
}

/// The icons at the positions.
pub open spec fn picked<'a>(catalog: Seq<Candidate>, targets: Seq<usize>) -> Seq<&'a Candidate> {
    targets.map_values(|k: usize| &catalog[k as int])
}

impl Job {
    /// The targets are positions in the catalog, and the crops have pixels.
    pub open spec fn wf(self, catalog: Seq<Candidate>) -> bool {
        &&& forall|i: int|
            0 <= i < self.targets@.len() ==> (#[trigger] self.targets@[i]) < catalog.len()
        &&& crops_ok(self.crops@)
    }

    /// Starts an export: exactly one input per platform, and a manifest that
    /// lists icons of the catalog only. `path` is where the manifest was read from.
    pub fn new(
        catalog: &[Candidate],
        labels: &[String],
        manifest: &str,
        path: &str,
    ) -> (out: Result<Job, GridError>)
        ensures
            match out {
                Ok(job) => {
                    &&& texts(job.ids@) == scraped(lines(manifest@))
                    &&& inputs_fault(labels@) is None
                    &&& targets_spec(catalog@, job.ids@, path@) == Ok::<_, GridFault>(
                        as_ints(job.targets@),
                    )
                    &&& job.crops@.len() == 0
                    &&& job.wf(catalog@)
                },
                Err(e) => exists|ids: Seq<String>| #[trigger]
                    texts(ids) == scraped(lines(manifest@)) && request_fault(
                        catalog@,
                        labels@,
                        ids,
                        path@,
                    ) == Some(e@),
            },
    {
        let ids = previous_ids(manifest);
        match check_labels(labels) {
            Err(e) => {
                assert(texts(ids@) == scraped(lines(manifest@)));
                return Err(e);
            },
            Ok(()) => {},
        }
        match resolve_targets(catalog, ids.as_slice(), path) {
            Err(e) => {
                assert(texts(ids@) == scraped(lines(manifest@)));
                Err(e)
            },
            Ok(targets) => {
                assert forall|i: int| 0 <= i < targets@.len() implies (#[trigger] targets@[i])
                    < catalog@.len() by {
                    assert(as_ints(targets@)[i] == targets@[i]);
                }
                Ok(Job { ids, targets, crops: Vec::new() })
            },
        }
    }

    /// Checks the captures, given in platform order: every platform must describe
    /// the identical render, and every icon must have been captured.
    pub fn check_captures(&self, catalog: &[Candidate], sidecars: &[&Sidecar]) -> (out: Result<
        (),
        GridError,
    >)
        requires
            self.wf(catalog@),
            sidecars@.len() == PLATFORMS,
        ensures
            crate::grid::fault_of(out) == captures_fault(
                catalog@,
                as_ints(self.targets@),
                sidecars@,
            ),
    {
        match check_sidecars(sidecars) {
            Err(e) => Err(e),
            Ok(()) => check_captured(
                catalog,
                self.targets.as_slice(),
                sidecars[crate::grid::CANONICAL],
            ),
        }
    }

    /// Takes the crops of one captured page. `plausible` is what the capture
    /// test found. A refused page changes nothing.
    pub fn take_page(
        &mut self,
        page: u32,
        gray: &GrayImage,
        plausible: bool,
        sidecar: &Sidecar,
        platform: usize,
    ) -> (out: Result<(), CaptureError>)
        requires
            gray.wf(),
            3 * (gray.width * gray.height) <= usize::MAX,
            plausible ==> crops_fit(
                gray@,
                page_entries(sidecar.rows@, page),
                old(self).ids@,
            ),
            crops_ok(old(self).crops@),
        ensures
            crops_ok(final(self).crops@),
            final(self).ids@ == old(self).ids@,
            final(self).targets@ == old(self).targets@,
            match out {
                Ok(()) => plausible && page_added(
                    old(self).crops@,
                    final(self).crops@,
                    gray@,
                    page_entries(sidecar.rows@, page),
                    old(self).ids@,
                    platform,
                ),
                Err(CaptureError::Implausible) => !plausible && final(self).crops@
                    == old(self).crops@,
                Err(CaptureError::Geometry(e)) => plausible && geometry(
                    cleaned(gray@, model_spec(gray@)),
                    model_spec(gray@),
                    page_entries(sidecar.rows@, page),
                ) == Err::<(crate::geom::Calibration, Seq<crate::geom::Band>), _>(e)
                    && final(self).crops@ == old(self).crops@,
            },
    {
        if !plausible {
            return Err(CaptureError::Implausible);
        }
        let rows = sidecar.rows_for_page(page);
        let ghost all = page_entries(sidecar.rows@, page);
        assert(crate::schema::entries(rows@).len() == rows@.len());
        let more = match page_crops(gray, rows.as_slice(), self.ids.as_slice(), platform) {
            Err(e) => {
                return Err(CaptureError::Geometry(e));
            },
            Ok(more) => more,
        };
        let ghost before = self.crops@;
        let ghost all_more = more@;
        let n = more.len();
        let mut rest = more;
        for i in 0..n
            invariant
                n == all_more.len(),
                crops_ok(all_more),
                crops_ok(self.crops@),
                self.ids@ == old(self).ids@,
                self.targets@ == old(self).targets@,
                rest@ == all_more.skip(i as int),
                self.crops@ == with_crops(before, all_more.take(i as int)),
        {
            proof {
                assert(all_more.take(i + 1).drop_last() =~= all_more.take(i as int));
                assert(rest@[0] == all_more[i as int]);
            }
            let c = rest.remove(0);
            assert(crops_ok(seq![c]));
            put_crop(&mut self.crops, c);
            assert(rest@ =~= all_more.skip(i + 1));
        }
        assert(all_more.take(n as int) =~= all_more);
        Ok(())
    }

    /// Composes the charts of the icons from the crops.
    pub fn finish(&self, catalog: &[Candidate], names: &HashMap<u32, String>) -> (out: Result<
        Export,
        GridError,
    >)
        requires
            self.wf(catalog@),
        ensures
            match out {
                Ok(e) => compose_fault(picked(catalog@, self.targets@), self.crops@) is None
                    && is_export(
                    e,
                    picked(catalog@, self.targets@),
                    self.crops@,
                    names@,
                ) && legend_names_platforms(e),
                Err(f) => compose_fault(picked(catalog@, self.targets@), self.crops@) == Some(f@),
            },
    {
        let mut targets: Vec<&Candidate> = Vec::new();
        for i in 0..self.targets.len()
            invariant
                self.wf(catalog@),
                targets@.len() == i,
                forall|j: int|
                    0 <= j < i ==> *(#[trigger] targets@[j]) == catalog@[self.targets@[j] as int],
        {
            targets.push(&catalog[self.targets[i]]);
        }
        assert(targets@ =~= picked(catalog@, self.targets@));
        compose(targets.as_slice(), self.crops.as_slice(), names)
    }
}

// ---------------------------------------------------------------------------
// Laws
// ---------------------------------------------------------------------------
/// One captured page: its luminance, its rows, and the platform it came from.
pub ghost struct PageShot {
    /// The capture.
    pub g: Gray,
    /// The rows of the page.
    pub rows: Seq<RowEntry>,
    /// The platform.
    pub platform: usize,
}

/// The crops are those of the pages, taken one after the other.
pub open spec fn crops_of_run(crops: Seq<Crop>, pages: Seq<PageShot>, ids: Seq<String>) -> bool
    decreases pages.len(),
{
    if pages.len() == 0 {
        crops.len() == 0
    } else {
        let p = pages.last();
        exists|before: Seq<Crop>| #[trigger]
            page_added(before, crops, p.g, p.rows, ids, p.platform) && crops_of_run(
                before,
                pages.drop_last(),
                ids,
            )
    }
}

/// A page that was taken continues the run.
pub proof fn runs_grow_page_by_page(
    before: Seq<Crop>,
    after: Seq<Crop>,
    pages: Seq<PageShot>,
    p: PageShot,
    ids: Seq<String>,
)
    requires
        crops_of_run(before, pages, ids),
        page_added(before, after, p.g, p.rows, ids, p.platform),
    ensures
        crops_of_run(after, pages.push(p), ids),
{
    let all = pages.push(p);
    let last = all.last();
    assert(all.drop_last() =~= pages);
    assert(page_added(before, after, last.g, last.rows, ids, last.platform));
    assert(exists|b: Seq<Crop>| #[trigger]
        page_added(b, after, last.g, last.rows, ids, last.platform) && crops_of_run(
            b,
            all.drop_last(),
            ids,
        ));
}

/// The job was started on the manifest at `path`.
pub open spec fn started(job: Job, catalog: Seq<Candidate>, path: Seq<char>) -> bool {
    targets_spec(catalog, job.ids@, path) == Ok::<_, GridFault>(as_ints(job.targets@))
}

/// Whole exports are deterministic. Two jobs on the same pages, from manifests
/// that list the same ids in whatever order and however often, have the same
/// icons and the same crops, fail for the same reason, and otherwise hand out
/// the same charts and the same index, byte for byte.
pub proof fn export_runs_are_deterministic(
    catalog: Seq<Candidate>,
    pages: Seq<PageShot>,
    names: Map<u32, String>,
    one: Job,
    path: Seq<char>,
    other: Job,
    other_path: Seq<char>,
)
    requires
        started(one, catalog, path),
        started(other, catalog, other_path),
        forall|id: Seq<char>| #[trigger] listed(one.ids@, id) == listed(other.ids@, id),
        crops_of_run(one.crops@, pages, one.ids@),
        crops_of_run(other.crops@, pages, other.ids@),
    ensures
        one.targets@ == other.targets@,
        same_crops(one.crops@, other.crops@),
        compose_fault(picked(catalog, one.targets@), one.crops@) == compose_fault(
            picked(catalog, other.targets@),
            other.crops@,
        ),
        compose_fault(picked(catalog, one.targets@), one.crops@) is None ==> forall|
            a: Export,
            b: Export,
        | #[trigger]
            is_export(a, picked(catalog, one.targets@), one.crops@, names) && #[trigger] is_export(
                b,
                picked(catalog, other.targets@),
                other.crops@,
                names,
            ) ==> same_export(a, b),
{
    manifest_order_is_irrelevant(catalog, one.ids@, path, other.ids@, other_path);
    let (s, t) = (one.targets@, other.targets@);
    assert(as_ints(s) == as_ints(t));
    assert(as_ints(s).len() == s.len() && as_ints(t).len() == t.len());
    assert forall|i: int| 0 <= i < s.len() implies s[i] == t[i] by {
        assert(as_ints(s)[i] == s[i] && as_ints(t)[i] == t[i]);
    }
    assert(s =~= t);
    lemma_same_run(one.crops@, other.crops@, pages, one.ids@, other.ids@);
    let targets = picked(catalog, s);
    same_crops_same_fault(targets, one.crops@, other.crops@);
    if compose_fault(targets, one.crops@) is None {
        assert forall|a: Export, b: Export| #[trigger]
            is_export(a, targets, one.crops@, names) && #[trigger] is_export(
                b,
                targets,
                other.crops@,
                names,
            ) implies same_export(a, b) by {
            exports_are_deterministic(a, b, targets, one.crops@, other.crops@, names);
        }
    }
}

proof fn lemma_same_run(
    a: Seq<Crop>,
    b: Seq<Crop>,
    pages: Seq<PageShot>,
    ids: Seq<String>,
    other: Seq<String>,
)
    requires
        forall|id: Seq<char>| #[trigger] listed(ids, id) == listed(other, id),
        crops_of_run(a, pages, ids),
        crops_of_run(b, pages, other),
    ensures
        same_crops(a, b),
    decreases pages.len(),
{
    if pages.len() > 0 {
        let p = pages.last();
        let rest = pages.drop_last();
        let x = choose|x: Seq<Crop>| #[trigger]
            page_added(x, a, p.g, p.rows, ids, p.platform) && crops_of_run(x, rest, ids);
        let y = choose|y: Seq<Crop>| #[trigger]
            page_added(y, b, p.g, p.rows, other, p.platform) && crops_of_run(y, rest, other);
        lemma_same_run(x, y, rest, ids, other);
        let m = model_spec(p.g);
        let v = geometry(cleaned(p.g, m), m, p.rows)->Ok_0;
        let more = choose|more: Seq<Crop>|
            a == #[trigger] with_crops(x, more) && are_crops(
                more,
                p.platform,
                p.g,
                v.0,
                v.1,
                p.rows,
                ids,
            );
        let most = choose|most: Seq<Crop>|
            b == #[trigger] with_crops(y, most) && are_crops(
                most,
                p.platform,
                p.g,
                v.0,
                v.1,
                p.rows,
                other,
            );
        pages_fix_their_crops(more, most, p.platform, p.g, v.0, v.1, p.rows, ids, other);
        lemma_same_additions(x, y, more, most);
    }
}

proof fn lemma_same_additions(a: Seq<Crop>, b: Seq<Crop>, more: Seq<Crop>, most: Seq<Crop>)
    requires
        same_crops(a, b),
        same_crops(more, most),
    ensures
        same_crops(with_crops(a, more), with_crops(b, most)),
    decreases more.len(),
{
    if more.len() > 0 {
        let (x, y) = (more.drop_last(), most.drop_last());
        assert forall|i: int| 0 <= i < x.len() implies same_crop(#[trigger] x[i], y[i]) by {
            assert(same_crop(more[i], most[i]));
        }
        lemma_same_additions(a, b, x, y);
        assert(same_crop(more[more.len() - 1], most[most.len() - 1]));
        same_crops_stay_the_same(with_crops(a, x), with_crops(b, y), more.last(), most.last());
    }
}

/// The index has a tile of the id.
pub open spec fn has_tile(e: Export, id: Seq<char>) -> bool {
    exists|i: int| 0 <= i < e.index.tiles@.len() && (#[trigger] e.index.tiles@[i]).id@ == id
}

/// The index lists exactly the ids of the manifest, each once, ordered by block
/// rank and then by codepoint.
pub proof fn tiles_list_exactly_the_manifest(
    catalog: Seq<Candidate>,
    job: Job,
    path: Seq<char>,
    names: Map<u32, String>,
    e: Export,
)
    requires
        started(job, catalog, path),
        is_export(e, picked(catalog, job.targets@), job.crops@, names),
    ensures
        forall|id: Seq<char>| #[trigger] has_tile(e, id) <==> listed(job.ids@, id),
        forall|i: int, j: int|
            0 <= i < j < e.index.tiles@.len() ==> (#[trigger] e.index.tiles@[i]).id@ != (
            #[trigger] e.index.tiles@[j]).id@,
        forall|i: int, j: int|
            0 <= i < j < e.index.tiles@.len() ==> {
                let (a, b) = (#[trigger] e.index.tiles@[i], #[trigger] e.index.tiles@[j]);
                a.block.rank_spec() < b.block.rank_spec() || (a.block.rank_spec()
                    == b.block.rank_spec() && a.codepoint <= b.codepoint)
            },
{
    let order = as_ints(job.targets@);
    let targets = picked(catalog, job.targets@);
    let m = crate::chart::crop_metrics(job.crops@);
    let tiles = e.index.tiles@;
    targets_are_sorted_and_complete(catalog, job.ids@, path, order);
    assert forall|i: int| 0 <= i < tiles.len() implies {
        let c = catalog[order[i]];
        &&& 0 <= order[i] < catalog.len()
        &&& first_with_id(catalog, c.id@, 0) == order[i]
        &&& listed(job.ids@, c.id@)
        &&& (#[trigger] tiles[i]).id@ == c.id@
        &&& tiles[i].block == c.block
        &&& tiles[i].codepoint == c.codepoint
    } by {
        assert(is_meta(tiles[i], targets, names, m, i));
        assert(order[i] == job.targets@[i]);
        assert(targets[i] == catalog[order[i]]);
        targets_stand_first(catalog, job.ids@, path, order, i);
    }
    assert forall|id: Seq<char>| #[trigger] has_tile(e, id) <==> listed(job.ids@, id) by {
        if has_tile(e, id) {
            let i = choose|i: int| 0 <= i < tiles.len() && (#[trigger] tiles[i]).id@ == id;
            assert(listed(job.ids@, tiles[i].id@));
        }
        if listed(job.ids@, id) {
            let k = choose|k: int| 0 <= k < job.ids@.len() && (#[trigger] job.ids@[k])@ == id;
            let f = first_with_id(catalog, job.ids@[k]@, 0);
            assert(order.contains(f));
            let i = choose|i: int| 0 <= i < order.len() && order[i] == f;
            targets_stand_first(catalog, job.ids@, path, order, i);
            manifest_ids_are_known(catalog, job.ids@, path, k);
            assert(tiles[i].id@ == id);
        }
    }
    assert forall|i: int, j: int| 0 <= i < j < tiles.len() implies (#[trigger] tiles[i]).id@ != (
    #[trigger] tiles[j]).id@ by {
        assert(order[i] != order[j]);
    }
    assert forall|i: int, j: int| 0 <= i < j < tiles.len() implies {
        let (a, b) = (#[trigger] tiles[i], #[trigger] tiles[j]);
        a.block.rank_spec() < b.block.rank_spec() || (a.block.rank_spec() == b.block.rank_spec()
            && a.codepoint <= b.codepoint)
    } by {
        assert(order[i] != order[j]);
        let (a, b) = (tiles[i], tiles[j]);
        assert(display_key(a.block, a.codepoint) <= display_key(b.block, b.codepoint));
    }
}

/// Of a page's crops the last one with a platform and an id counts, and what the
/// page does not have stays as it was.
pub proof fn the_last_crop_of_a_page_counts(
    before: Seq<Crop>,
    more: Seq<Crop>,
    platform: usize,
    id: Seq<char>,
)
    requires
        crops_unique(before),
    ensures
        ({
            let after = with_crops(before, more);
            let k = crop_place(after, platform, id, 0);
            let was = crop_place(before, platform, id, 0);
            &&& crops_unique(after)
            &&& forall|n: int| #[trigger]
                is_last_crop(more, platform, id, n) ==> k < after.len() && after[k] == more[n]
            &&& (forall|n: int|
                0 <= n < more.len() ==> (#[trigger] more[n]).platform != platform || more[n].id@
                    != id) ==> if was < before.len() {
                k < after.len() && after[k] == before[was]
            } else {
                k == after.len()
            }
        }),
    decreases more.len(),
{
    crop_places_lie_inside(before, platform, id);
    if more.len() > 0 {
        let init = more.drop_last();
        let c = more.last();
        the_last_crop_of_a_page_counts(before, init, platform, id);
        let mid = with_crops(before, init);
        the_latest_crop_counts(mid, c, platform, id);
        let n = more.len() - 1;
        assert(more[n] == c);
        if c.platform == platform && c.id@ == id {
            assert forall|j: int| #[trigger] is_last_crop(more, platform, id, j) implies j == n by {
                if j < n {
                    assert(more[n].platform != platform || more[n].id@ != id);
                }
            }
        } else {
            assert forall|j: int| #[trigger] is_last_crop(more, platform, id, j) implies j < n
                && is_last_crop(init, platform, id, j) by {
                assert forall|i: int| j < i < init.len() implies (#[trigger] init[i]).platform
                    != platform || init[i].id@ != id by {
                    assert(more[i] == init[i]);
                }
            }
            if forall|j: int|
                0 <= j < more.len() ==> (#[trigger] more[j]).platform != platform || more[j].id@
                    != id {
                assert forall|j: int| 0 <= j < init.len() implies (#[trigger] init[j]).platform
                    != platform || init[j].id@ != id by {
                    assert(more[j] == init[j]);
                }
            }
        }
    }
}

/// Crop `n` is the last one of the platform and the id.
pub open spec fn is_last_crop(more: Seq<Crop>, platform: usize, id: Seq<char>, n: int) -> bool {
    &&& 0 <= n < more.len()
    &&& more[n].platform == platform
    &&& more[n].id@ == id
    &&& forall|i: int|
        n < i < more.len() ==> (#[trigger] more[i]).platform != platform || more[i].id@ != id
}

/// A request is refused for its labels first, and for its ids behind them. Captures
/// are refused for their differences first, and for missing icons behind them, by
/// the Linux capture.
pub proof fn refusals_come_in_order(
    catalog: Seq<Candidate>,
    labels: Seq<String>,
    ids: Seq<String>,
    path: Seq<char>,
    targets: Seq<int>,
    sidecars: Seq<&Sidecar>,
)
    ensures
        request_fault(catalog, labels, ids, path) is None <==> inputs_fault(labels) is None
            && targets_spec(catalog, ids, path) is Ok,
        inputs_fault(labels) is Some ==> request_fault(catalog, labels, ids, path) == inputs_fault(
            labels,
        ),
        inputs_fault(labels) is None && targets_spec(catalog, ids, path) is Err ==> request_fault(
            catalog,
            labels,
            ids,
            path,
        ) == Some(targets_spec(catalog, ids, path)->Err_0),
        captures_fault(catalog, targets, sidecars) is None <==> skewed(sidecars, 0) is None
            && absent(catalog, targets, sidecars[2].rows@, 0) is None,
        skewed(sidecars, 0) is Some ==> captures_fault(catalog, targets, sidecars) == skewed(
            sidecars,
            0,
        ),
        skewed(sidecars, 0) is None ==> captures_fault(catalog, targets, sidecars) == absent(
            catalog,
            targets,
            sidecars[2].rows@,
            0,
        ),
{
}

} // verus!
