//! Verdict output schema and the merge of both passes.
use crate::listing::{lemma_listing, lemma_same_listing, listing, lists};
use crate::schema::Pass1Status;
use crate::text::same_text;
use vstd::prelude::*;

verus! {

/// Per-candidate combined verdict.
#[derive(Clone, Debug)]
pub struct Verdict {
    /// Catalog id.
    pub id: String,
    /// Codepoint of the glyph.
    pub codepoint: u32,
    /// Pass-1 status string (`pass | fail | inconclusive`).
    pub pass1: String,
    /// Pass-2 visibility (false = blank or tofu box).
    pub visible: bool,
    /// Pass-2 spatial isolation (true = no bleed into sentinel B).
    pub no_bleed: bool,
    /// AND gate at candidate level: `pass && visible && no_bleed`.
    pub overall: String,
}

/// A verdict with its texts taken as characters.
#[verifier::ext_equal]
pub ghost struct VerdictView {
    /// Catalog id.
    pub id: Seq<char>,
    /// Codepoint of the glyph.
    pub codepoint: u32,
    /// Pass-1 status string.
    pub pass1: Seq<char>,
    /// Pass-2 visibility.
    pub visible: bool,
    /// Pass-2 spatial isolation.
    pub no_bleed: bool,
    /// Combined outcome.
    pub overall: Seq<char>,
}

impl Verdict {
    /// The verdict with its texts taken as characters.
    pub open spec fn view(&self) -> VerdictView {
        VerdictView {
            id: self.id@,
            codepoint: self.codepoint,
            pass1: self.pass1@,
            visible: self.visible,
            no_bleed: self.no_bleed,
            overall: self.overall@,
        }
    }
}

/// Verdicts with their texts taken as characters.
pub open spec fn verdict_views(v: Seq<Verdict>) -> Seq<VerdictView> {
    v.map_values(|x: Verdict| x.view())
}

/// The word for a Pass-1 status.
pub open spec fn status_text(s: Pass1Status) -> Seq<char> {
    match s {
        Pass1Status::Pass => "pass"@,
        Pass1Status::Fail => "fail"@,
        Pass1Status::Inconclusive => "inconclusive"@,
    }
}

/// Both passes combined: a candidate stands when each of them does.
pub open spec fn merged(
    id: Seq<char>,
    codepoint: u32,
    pass1: Pass1Status,
    visible: bool,
    no_bleed: bool,
) -> VerdictView {
    VerdictView {
        id,
        codepoint,
        pass1: status_text(pass1),
        visible,
        no_bleed,
        overall: if pass1 == Pass1Status::Pass && visible && no_bleed {
            "pass"@
        } else {
            "fail"@
        },
    }
}

/// Combines both passes.
pub fn merge(id: &str, codepoint: u32, pass1: Pass1Status, visible: bool, no_bleed: bool) -> (v:
    Verdict)
    ensures
        v@ == merged(id@, codepoint, pass1, visible, no_bleed),
{
    let p1 = match pass1 {
        Pass1Status::Pass => "pass",
        Pass1Status::Fail => "fail",
        Pass1Status::Inconclusive => "inconclusive",
    };
    let overall = if pass1 == Pass1Status::Pass && visible && no_bleed {
        "pass"
    } else {
        "fail"
    };
    Verdict {
        id: id.to_owned(),
        codepoint,
        pass1: p1.to_owned(),
        visible,
        no_bleed,
        overall: overall.to_owned(),
    }
}

/// Full platform verdicts.
#[derive(Clone, Debug)]
pub struct VerdictReport {
    /// Version of the schema.
    pub schema_version: u32,
    /// Platform label.
    pub platform: String,
    /// Host emulator.
    pub host: String,
    /// Whether Pass 1 ran and the capture could be analyzed.
    pub pass1_support: bool,
    /// Set when the capture could not be analyzed at all (band mismatch,
    /// calibration failure, implausible capture). All candidates then fail.
    pub structural_fail: Option<String>,
    /// One verdict per candidate.
    pub results: Vec<Verdict>,
}

/// The ids of the verdicts that passed, in order.
pub open spec fn passed(v: Seq<VerdictView>) -> Seq<Seq<char>>
    decreases v.len(),
{
    if v.len() == 0 {
        seq![]
    } else if v.last().overall == "pass"@ {
        passed(v.drop_last()).push(v.last().id)
    } else {
        passed(v.drop_last())
    }
}

/// Texts as character sequences.
pub open spec fn str_views(v: Seq<&str>) -> Seq<Seq<char>> {
    v.map_values(|s: &str| s@)
}

impl VerdictReport {
    /// Ids whose candidates passed everything.
    pub open spec fn passing(self) -> Seq<Seq<char>> {
        if self.structural_fail is Some || !self.pass1_support {
            seq![]
        } else {
            passed(verdict_views(self.results@))
        }
    }

    /// Ids whose candidates passed everything.
    pub fn passing_ids(&self) -> (out: Vec<&str>)
        ensures
            str_views(out@) == self.passing(),
    {
        let mut out: Vec<&str> = Vec::new();
        assert(str_views(out@) =~= seq![]);
        if self.structural_fail.is_some() || !self.pass1_support {
            return out;
        }
        let ghost views = verdict_views(self.results@);
        for i in 0..self.results.len()
            invariant
                views == verdict_views(self.results@),
                str_views(out@) == passed(views.take(i as int)),
        {
            let v = &self.results[i];
            proof {
                assert(views.take(i + 1).drop_last() =~= views.take(i as int));
                assert(views.take(i + 1).last() == v@);
            }
            if same_text(v.overall.as_str(), "pass") {
                let ghost before = out@;
                out.push(v.id.as_str());
                assert(str_views(out@) =~= str_views(before).push(v.id@));
            }
        }
        assert(views.take(views.len() as int) =~= views);
        out
    }
}

// ---------------------------------------------------------------------------
// Laws
// ---------------------------------------------------------------------------
/// A merged verdict passes when, and only when, all three of its parts do.
pub proof fn merged_passes_with_every_part(
    id: Seq<char>,
    codepoint: u32,
    pass1: Pass1Status,
    visible: bool,
    no_bleed: bool,
)
    ensures
        merged(id, codepoint, pass1, visible, no_bleed).overall == "pass"@ <==> pass1
            == Pass1Status::Pass && visible && no_bleed,
{
    reveal_strlit("pass");
    reveal_strlit("fail");
    assert("pass"@[0] != "fail"@[0]);
}

/// No more ids pass than there are verdicts, and every passing id is one of
/// theirs.
pub proof fn passing_ids_are_candidates(v: Seq<VerdictView>)
    ensures
        passed(v).len() <= v.len(),
        forall|i: int| 0 <= i < passed(v).len() ==> exists|j: int|
            0 <= j < v.len() && (#[trigger] v[j]).id == #[trigger] passed(v)[i] && v[j].overall
                == "pass"@,
    decreases v.len(),
{
    if v.len() > 0 {
        let init = v.drop_last();
        passing_ids_are_candidates(init);
        assert forall|i: int| 0 <= i < passed(v).len() implies exists|j: int|
            0 <= j < v.len() && (#[trigger] v[j]).id == #[trigger] passed(v)[i] && v[j].overall
                == "pass"@ by {
            if i < passed(init).len() {
                assert(passed(v)[i] == passed(init)[i]);
                let j = choose|j: int|
                    0 <= j < init.len() && (#[trigger] init[j]).id == passed(init)[i]
                        && init[j].overall == "pass"@;
                assert(v[j] == init[j]);
            } else {
                assert(v[v.len() - 1] == v.last());
            }
        }
    }
}

/// A merged verdict carries what it was made of, and the word for each status.
pub proof fn merged_carries_its_parts(
    id: Seq<char>,
    codepoint: u32,
    pass1: Pass1Status,
    visible: bool,
    no_bleed: bool,
)
    ensures
        ({
            let v = merged(id, codepoint, pass1, visible, no_bleed);
            &&& v.id == id
            &&& v.codepoint == codepoint
            &&& v.visible == visible
            &&& v.no_bleed == no_bleed
            &&& pass1 is Pass ==> v.pass1 == "pass"@
            &&& pass1 is Fail ==> v.pass1 == "fail"@
            &&& pass1 is Inconclusive ==> v.pass1 == "inconclusive"@
            &&& pass1 is Pass && visible && no_bleed ==> v.overall == "pass"@
            &&& !(pass1 is Pass && visible && no_bleed) ==> v.overall == "fail"@
        }),
{
}

proof fn lemma_passed(v: Seq<VerdictView>)
    ensures
        ({
            let at = listing(v.len() as int, |k: int| v[k].overall == "pass"@);
            &&& passed(v).len() == at.len()
            &&& forall|i: int| 0 <= i < at.len() ==> #[trigger] passed(v)[i] == v[at[i]].id
        }),
    decreases v.len(),
{
    if v.len() > 0 {
        let w = v.drop_last();
        let n = w.len() as int;
        let f = |k: int| v[k].overall == "pass"@;
        let g = |k: int| w[k].overall == "pass"@;
        lemma_passed(w);
        assert forall|k: int| 0 <= k < n implies #[trigger] f(k) == g(k) by {
            assert(w[k] == v[k]);
        }
        lemma_same_listing(n, f, g);
        lemma_listing(n, f);
        let at = listing(v.len() as int, f);
        let init = listing(n, f);
        assert(f(n) == (v.last().overall == "pass"@));
        assert forall|i: int| 0 <= i < at.len() implies #[trigger] passed(v)[i] == v[at[i]].id by {
            if i < init.len() {
                assert(passed(w)[i] == w[init[i]].id);
                assert(at[i] == init[i]);
                assert(0 <= init[i] < n);
            }
        }
    }
}

/// The positions of the verdicts that passed, in ascending order.
pub open spec fn lists_the_passing(at: Seq<int>, results: Seq<Verdict>) -> bool {
    lists(at, results.len() as int, |k: int| results[k].overall@ == "pass"@)
}

/// The passing ids of a report are those of its passing verdicts, one for each and
/// in their order. A report with a structural failure or without the first pass
/// has none.
pub proof fn passing_ids_are_those_that_passed(r: VerdictReport)
    ensures
        r.structural_fail is Some || !r.pass1_support ==> r.passing().len() == 0,
        r.structural_fail is None && r.pass1_support ==> exists|at: Seq<int>| #[trigger]
            lists_the_passing(at, r.results@) && r.passing().len() == at.len() && forall|i: int|
                0 <= i < at.len() ==> #[trigger] r.passing()[i] == r.results@[at[i]].id@,
{
    if r.structural_fail is None && r.pass1_support {
        let v = verdict_views(r.results@);
        let n = v.len() as int;
        let f = |k: int| r.results@[k].overall@ == "pass"@;
        let g = |k: int| v[k].overall == "pass"@;
        lemma_passed(v);
        assert forall|k: int| 0 <= k < n implies #[trigger] f(k) == g(k) by {
            assert(v[k] == r.results@[k]@);
        }
        lemma_same_listing(n, f, g);
        lemma_listing(n, f);
        let at = listing(n, f);
        assert forall|i: int| 0 <= i < at.len() implies #[trigger] r.passing()[i]
            == r.results@[at[i]].id@ by {
            assert(0 <= at[i] < n);
            assert(v[at[i]] == r.results@[at[i]]@);
        }
        assert(lists_the_passing(at, r.results@));
    }
}

/// As many ids pass as there are verdicts when every verdict passes, and only then.
pub proof fn all_ids_pass_when_every_verdict_does(r: VerdictReport)
    requires
        r.structural_fail is None,
    ensures
        r.passing().len() == r.results@.len() <==> r.results@.len() == 0 || r.pass1_support
            && forall|i: int|
            0 <= i < r.results@.len() ==> (#[trigger] r.results@[i]).overall@ == "pass"@,
{
    if r.pass1_support {
        lemma_all_pass(verdict_views(r.results@));
        let v = verdict_views(r.results@);
        assert forall|i: int| 0 <= i < v.len() implies #[trigger] v[i].overall
            == r.results@[i].overall@ by {
            assert(v[i] == r.results@[i]@);
        }
        if passed(v).len() == v.len() {
            assert forall|i: int| 0 <= i < r.results@.len() implies (
            #[trigger] r.results@[i]).overall@ == "pass"@ by {
                assert(v[i].overall == "pass"@);
            }
        }
    }
}

proof fn lemma_all_pass(v: Seq<VerdictView>)
    ensures
        passed(v).len() <= v.len(),
        passed(v).len() == v.len() <==> forall|i: int|
            0 <= i < v.len() ==> (#[trigger] v[i]).overall == "pass"@,
    decreases v.len(),
{
    if v.len() > 0 {
        let w = v.drop_last();
        lemma_all_pass(w);
        if passed(v).len() == v.len() {
            assert forall|i: int| 0 <= i < v.len() implies (#[trigger] v[i]).overall == "pass"@ by {
                if i < w.len() {
                    assert(w[i].overall == "pass"@);
                }
            }
        }
        if forall|i: int| 0 <= i < v.len() ==> (#[trigger] v[i]).overall == "pass"@ {
            assert forall|i: int| 0 <= i < w.len() implies (#[trigger] w[i]).overall == "pass"@ by {
                assert(v[i].overall == "pass"@);
            }
            assert(v[v.len() - 1].overall == "pass"@);
        }
    }
}

} // verus!
