//! The harness sidecar and Pass-1 report as the pixel assertions read them.
use crate::catalog::Block;
use crate::sort::{as_ints, is_order, sort_selected, stable_order, stable_order_exists};
use vstd::prelude::*;

verus! {

/// Sidecar written by the matrix harness.
#[derive(Clone, Debug)]
pub struct Sidecar {
    /// Version of the schema.
    pub schema_version: u32,
    /// Platform label.
    pub platform: String,
    /// Host emulator.
    pub host: String,
    /// Whether Pass 1 ran.
    pub pass1_support: bool,
    /// Pass-1 transport.
    pub pass1_method: String,
    /// Rows per page.
    pub page_rows: u16,
    /// Number of pages.
    pub pages: u32,
    /// All lines.
    pub rows: Vec<RowEntry>,
}

/// One rendered line of the matrix.
#[derive(Clone, Debug)]
pub enum RowEntry {
    /// Reference row.
    Control {
        /// 0-based page.
        page: u32,
        /// 0-based page-relative row.
        page_row: u16,
    },
    /// A candidate under test.
    Candidate {
        /// Catalog id.
        id: String,
        /// Codepoint of the glyph.
        codepoint: u32,
        /// Owning block.
        block: Block,
        /// 0-based page.
        page: u32,
        /// 0-based page-relative row.
        page_row: u16,
        /// Column that a one-cell glyph leads to.
        expected_end_col: u16,
    },
}

impl RowEntry {
    /// The row's page.
    pub open spec fn page_spec(self) -> u32 {
        match self {
            RowEntry::Control { page, .. } => page,
            RowEntry::Candidate { page, .. } => page,
        }
    }

    /// The row's place on its page.
    pub open spec fn page_row_spec(self) -> u16 {
        match self {
            RowEntry::Control { page_row, .. } => page_row,
            RowEntry::Candidate { page_row, .. } => page_row,
        }
    }

    /// The row's page.
    pub fn page(&self) -> (p: u32)
        ensures
            p == self.page_spec(),
    {
        match self {
            RowEntry::Control { page, .. } => *page,
            RowEntry::Candidate { page, .. } => *page,
        }
    }

    /// The row's place on its page.
    pub fn page_row(&self) -> (r: u16)
        ensures
            r == self.page_row_spec(),
    {
        match self {
            RowEntry::Control { page_row, .. } => *page_row,
            RowEntry::Candidate { page_row, .. } => *page_row,
        }
    }
}

/// Positions of the rows of a page, ordered by place on the page; rows with the
/// same place keep their order.
pub open spec fn page_positions(rows: Seq<RowEntry>, page: u32) -> Seq<int> {
    stable_order(
        rows.map_values(|r: RowEntry| r.page_row_spec() as u64),
        rows.map_values(|r: RowEntry| r.page_spec() == page),
    )
}

/// The rows of a page, ordered by place on the page.
pub open spec fn page_entries(rows: Seq<RowEntry>, page: u32) -> Seq<RowEntry> {
    page_positions(rows, page).map_values(|i: int| rows[i])
}

/// Borrowed rows as values.
pub open spec fn entries(v: Seq<&RowEntry>) -> Seq<RowEntry> {
    v.map_values(|r: &RowEntry| *r)
}

impl Sidecar {
    /// Rows of one page ordered by `page_row`.
    pub fn rows_for_page(&self, page: u32) -> (out: Vec<&RowEntry>)
        ensures
            entries(out@) == page_entries(self.rows@, page),
    {
        let ghost rows = self.rows@;
        let ghost ks = rows.map_values(|r: RowEntry| r.page_row_spec() as u64);
        let ghost ps = rows.map_values(|r: RowEntry| r.page_spec() == page);
        let mut keys: Vec<u64> = Vec::new();
        let mut keep: Vec<bool> = Vec::new();
        for i in 0..self.rows.len()
            invariant
                rows == self.rows@,
                keys@.len() == i,
                keep@.len() == i,
                forall|j: int| 0 <= j < i ==> keys@[j] == rows[j].page_row_spec() as u64,
                forall|j: int| 0 <= j < i ==> keep@[j] == (rows[j].page_spec() == page),
        {
            keys.push(self.rows[i].page_row() as u64);
            keep.push(self.rows[i].page() == page);
        }
        assert(keys@ =~= ks);
        assert(keep@ =~= ps);
        let order = sort_selected(keys.as_slice(), keep.as_slice());
        let ghost o = as_ints(order@);
        let mut out: Vec<&RowEntry> = Vec::new();
        for i in 0..order.len()
            invariant
                rows == self.rows@,
                keys@.len() == rows.len(),
                o == as_ints(order@),
                is_order(keys@, keep@, o),
                out@.len() == i,
                forall|j: int| 0 <= j < i ==> *#[trigger] out@[j] == rows[o[j]],
        {
            assert(o[i as int] == order@[i as int]);
            out.push(&self.rows[order[i]]);
        }
        assert(entries(out@) =~= page_entries(self.rows@, page));
        out
    }
}

/// Pass-1 report.
#[derive(Clone, Debug)]
pub struct Pass1Report {
    /// Whether Pass 1 ran.
    pub pass1_support: bool,
    /// Per-candidate outcomes.
    pub results: Vec<Pass1Result>,
}

/// Per-candidate Pass-1 outcome.
#[derive(Clone, Debug)]
pub struct Pass1Result {
    /// Catalog id.
    pub id: String,
    /// Codepoint of the glyph.
    pub codepoint: u32,
    /// Outcome.
    pub status: Pass1Status,
}

/// Pass-1 status as the harness wrote it.
#[derive(Clone, Copy, Debug, PartialEq, Eq, Structural)]
pub enum Pass1Status {
    /// The glyph advanced by exactly one cell.
    Pass,
    /// The glyph advanced by something else.
    Fail,
    /// Nothing is known.
    Inconclusive,
}

// ---------------------------------------------------------------------------
// Laws
// ---------------------------------------------------------------------------
/// Every row stands on exactly the page it names, and pages list their rows in
/// ascending place.
pub proof fn pages_list_their_rows(rows: Seq<RowEntry>, page: u32)
    ensures
        forall|i: int|
            0 <= i < page_entries(rows, page).len() ==> (#[trigger] page_entries(
                rows,
                page,
            )[i]).page_spec() == page,
        forall|i: int, j: int|
            0 <= i <= j < page_entries(rows, page).len() ==> (#[trigger] page_entries(
                rows,
                page,
            )[i]).page_row_spec() <= (#[trigger] page_entries(rows, page)[j]).page_row_spec(),
        forall|k: int|
            0 <= k < rows.len() && (#[trigger] rows[k]).page_spec() == page ==> page_entries(
                rows,
                page,
            ).contains(rows[k]),
{
    let ks = rows.map_values(|r: RowEntry| r.page_row_spec() as u64);
    let ps = rows.map_values(|r: RowEntry| r.page_spec() == page);
    let order = page_positions(rows, page);
    stable_order_exists(ks, ps);
    let e = page_entries(rows, page);
    assert forall|i: int| 0 <= i < order.len() implies (#[trigger] e[i]).page_spec() == page by {
        assert(ps[order[i]]);
    }
    assert forall|i: int, j: int| 0 <= i <= j < order.len() implies (#[trigger] e[i]).page_row_spec()
        <= (#[trigger] e[j]).page_row_spec() by {
        if i < j {
            assert(crate::sort::goes_before(ks, order[i], order[j]));
            assert(ks[order[i]] == e[i].page_row_spec());
            assert(ks[order[j]] == e[j].page_row_spec());
        }
    }
    assert forall|k: int| 0 <= k < rows.len() && (#[trigger] rows[k]).page_spec() == page implies
        e.contains(rows[k]) by {
        assert(ps[k]);
        assert(order.contains(k));
        let i = choose|i: int| 0 <= i < order.len() && order[i] == k;
        assert(e[i] == rows[k]);
    }
}

/// The list of a page's rows: each row of the page once, by place on the page, rows
/// of one place in the order of the sidecar.
pub open spec fn lists_page(at: Seq<int>, rows: Seq<RowEntry>, page: u32) -> bool {
    &&& forall|i: int|
        0 <= i < at.len() ==> 0 <= #[trigger] at[i] < rows.len() && rows[at[i]].page_spec() == page
    &&& forall|i: int, j: int|
        0 <= i < j < at.len() ==> {
            let (a, b) = (#[trigger] at[i], #[trigger] at[j]);
            rows[a].page_row_spec() < rows[b].page_row_spec() || rows[a].page_row_spec()
                == rows[b].page_row_spec() && a < b
        }
    &&& forall|k: int|
        0 <= k < rows.len() && (#[trigger] rows[k]).page_spec() == page ==> at.contains(k)
}

/// A page's rows are all the rows of the page, each once, in the order of their
/// places.
pub proof fn pages_have_each_of_their_rows_once(rows: Seq<RowEntry>, page: u32)
    ensures
        exists|at: Seq<int>| #[trigger]
            lists_page(at, rows, page) && page_entries(rows, page).len() == at.len() && forall|
                i: int,
            |
                0 <= i < at.len() ==> #[trigger] page_entries(rows, page)[i] == rows[at[i]],
        forall|r: RowEntry|
            r matches RowEntry::Control { page: p, page_row: q } ==> #[trigger] r.page_spec() == p
                && r.page_row_spec() == q,
        forall|r: RowEntry|
            r is Candidate ==> #[trigger] r.page_spec() == r->Candidate_page && r.page_row_spec()
                == r->Candidate_page_row,
{
    let keys = rows.map_values(|r: RowEntry| r.page_row_spec() as u64);
    let keep = rows.map_values(|r: RowEntry| r.page_spec() == page);
    stable_order_exists(keys, keep);
    let at = page_positions(rows, page);
    assert forall|i: int| 0 <= i < at.len() implies 0 <= #[trigger] at[i] < rows.len()
        && rows[at[i]].page_spec() == page by {
        assert(keep[at[i]]);
    }
    assert forall|i: int, j: int| 0 <= i < j < at.len() implies ({
        let (a, b) = (#[trigger] at[i], #[trigger] at[j]);
        rows[a].page_row_spec() < rows[b].page_row_spec() || rows[a].page_row_spec()
            == rows[b].page_row_spec() && a < b
    }) by {
        let (a, b) = (at[i], at[j]);
        assert(keys[a] == rows[a].page_row_spec() && keys[b] == rows[b].page_row_spec());
    }
    assert forall|k: int| 0 <= k < rows.len() && (#[trigger] rows[k]).page_spec()
        == page implies at.contains(k) by {
        assert(keep[k]);
    }
    assert(lists_page(at, rows, page));
}

} // verus!
