//! Checks are modules, never crates. Each check is a plain function over the
//! resolved, scanned river that emits through the [`CheckContext`].

pub mod consume_before_produce;
pub mod schema_mismatch;
pub mod unannotated_io;

use vstd::prelude::*;

use crate::diagnostic::{CheckContext, DiagnosticView};
use crate::facts::{queries_view, Facts, Query, QueryView, ScriptLoad};
use crate::paths::{join, normalize, spec_join, spec_normalize};
use crate::pipeline::{
    exp_file, expand, push_opt, resolved_view, ExpState, ResolvedStep, ResolvedStepView,
};
use crate::python::{
    calls_view, scan, spec_module_stem, spec_scan_calls, syntax_error_diag, unreadable_step_diag,
    IoCallView, ScannedFile,
};
use consume_before_produce::spec_cbp;
use schema_mismatch::spec_mismatches;
use unannotated_io::spec_unannotated;

verus! {

/// A river step joined with the scan of its Python source.
pub struct AnalyzedStep {
    pub step: ResolvedStep,
    pub file: ScannedFile,
}

pub struct AnalyzedView {
    pub strict: bool,
    pub dir: Seq<char>,
    pub file: Seq<char>,
    pub calls: Seq<IoCallView>,
}

impl View for AnalyzedStep {
    type V = AnalyzedView;

    open spec fn view(&self) -> AnalyzedView {
        AnalyzedView {
            strict: self.step.strict,
            dir: self.step.dir@,
            file: self.file.path@,
            calls: calls_view(self.file.calls@),
        }
    }
}

pub open spec fn analyzed_view(s: Seq<AnalyzedStep>) -> Seq<AnalyzedView> {
    s.map_values(|a: AnalyzedStep| a@)
}

/// The identity of an artifact named `path` inside a step running in `dir`:
/// its path literal resolved against that directory.
pub open spec fn spec_artifact_key(dir: Seq<char>, path: Seq<char>) -> Seq<char> {
    spec_normalize(spec_join(dir, path))
}

/// An artifact's identity is its literal resolved against the directory of
/// the river that lists the step: a relative literal `p` in a river
/// directory `d` is the normalized `d/p`, so the same literal in rivers of
/// different directories names different artifacts; an absolute literal, or
/// one in a river of the current directory, is the normalized literal.
pub proof fn lemma_artifact_key_in_river_dir(d: Seq<char>, p: Seq<char>)
    ensures
        d.len() > 0 && d.last() != '/' && !crate::paths::is_absolute(p) ==> spec_artifact_key(d, p) == spec_normalize(
            d + seq!['/'] + p,
        ),
        d.len() > 0 && d.last() == '/' && !crate::paths::is_absolute(p) ==> spec_artifact_key(d, p)
            == spec_normalize(d + p),
        d.len() == 0 || crate::paths::is_absolute(p) ==> spec_artifact_key(d, p) == spec_normalize(p),
{
}

impl AnalyzedStep {
    pub fn artifact_key(&self, path: &str) -> (k: String)
        ensures
            k@ == spec_artifact_key(self.step.dir@, path@),
    {
        normalize(join(self.step.dir.as_str(), path).as_str())
    }
}

pub struct ScanPhase {
    pub analyzed: Seq<AnalyzedView>,
    pub diags: Seq<DiagnosticView>,
    pub needs: Seq<QueryView>,
}

/// Scanning one resolved step: unreadable and unparsable steps are reported,
/// unknown ones are asked for, the others join the analyzed steps.
pub open spec fn scan_one(facts: &Facts, st: ScanPhase, r: ResolvedStepView) -> ScanPhase {
    match facts.spec_script(r.script) {
        None => ScanPhase { needs: st.needs.push(QueryView::LoadScript(r.script)), ..st },
        Some(ScriptLoad::Unreadable(err)) => ScanPhase {
            diags: push_opt(st.diags, unreadable_step_diag(r.strict, r.script, err@)),
            ..st
        },
        Some(ScriptLoad::Read { source, parsed }) => match parsed {
            Err(e) => ScanPhase {
                diags: push_opt(st.diags, syntax_error_diag(r.strict, r.script, e.message@, e.range)),
                ..st
            },
            Ok(events) => ScanPhase {
                analyzed: st.analyzed.push(
                    AnalyzedView {
                        strict: r.strict,
                        dir: r.dir,
                        file: r.script,
                        calls: spec_scan_calls(spec_module_stem(r.script), events@),
                    },
                ),
                ..st
            },
        },
    }
}

pub open spec fn scan_steps(facts: &Facts, st: ScanPhase, steps: Seq<ResolvedStepView>) -> ScanPhase
    decreases steps.len(),
{
    if steps.len() == 0 {
        st
    } else {
        scan_one(facts, scan_steps(facts, st, steps.drop_last()), steps.last())
    }
}

/// Diagnostics and needed facts after checking the river at `root`,
/// starting from `diags` and `needs`: expansion, scanning, then the
/// `unannotated-io`, `consume-before-produce` and `schema-mismatch` checks
/// over the ordered steps.
pub open spec fn spec_check_root(facts: &Facts, root: Seq<char>, diags: Seq<DiagnosticView>, needs: Seq<QueryView>) -> (
    Seq<DiagnosticView>,
    Seq<QueryView>,
) {
    let e = exp_file(
        facts,
        root,
        false,
        Seq::empty(),
        ExpState { steps: resolved_view(Seq::empty()), diags, needs },
    );
    let s = scan_steps(facts, ScanPhase { analyzed: Seq::empty(), diags: e.diags, needs: e.needs }, e.steps);
    let c = spec_cbp(facts, s.analyzed, s.diags + spec_unannotated(s.analyzed), s.needs);
    (c.diags + spec_mismatches(s.analyzed), c.needs)
}

/// Check one root river: expand it (cycles, missing steps), scan every
/// Python step (syntax), then run the artifact checks over the ordered steps.
pub fn check_root(root_yaml: &str, facts: &Facts, needs: &mut Vec<Query>, ctx: &mut CheckContext)
    ensures
        (final(ctx)@, queries_view(final(needs)@)) == spec_check_root(
            facts,
            root_yaml@,
            old(ctx)@,
            queries_view(old(needs)@),
        ),
{
    let steps = expand(root_yaml, facts, needs, ctx);
    let ghost rv = resolved_view(steps@);
    let ghost st0 = ScanPhase { analyzed: Seq::empty(), diags: ctx@, needs: queries_view(needs@) };
    let mut analyzed: Vec<AnalyzedStep> = Vec::new();
    let mut i: usize = 0;
    assert(rv.take(0) =~= Seq::<ResolvedStepView>::empty());
    assert(analyzed_view(analyzed@) =~= Seq::<AnalyzedView>::empty());
    while i < steps.len()
        invariant
            rv == resolved_view(steps@),
            i <= rv.len(),
            scan_steps(facts, st0, rv.take(i as int)) == (ScanPhase {
                analyzed: analyzed_view(analyzed@),
                diags: ctx@,
                needs: queries_view(needs@),
            }),
        decreases rv.len() - i,
    {
        let step = steps[i].duplicate();
        assert(step@ == rv[i as int]);
        assert(rv.take(i + 1).drop_last() =~= rv.take(i as int));
        let ghost prev = analyzed@;
        match scan(step.script.as_str(), facts, step.strict, needs, ctx) {
            Some(file) => {
                let a = AnalyzedStep { step, file };
                let ghost av = a@;
                analyzed.push(a);
                assert(analyzed_view(analyzed@) =~= analyzed_view(prev).push(av));
            },
            None => {},
        }
        i = i + 1;
    }
    assert(rv.take(rv.len() as int) =~= rv);
    unannotated_io::check(&analyzed, ctx);
    consume_before_produce::check(&analyzed, facts, needs, ctx);
    schema_mismatch::check(&analyzed, ctx);
}

/// `st` followed by the diagnostics and needs of `r`, with the steps `r`
/// analyzed.
pub open spec fn scan_after(st: ScanPhase, r: ScanPhase) -> ScanPhase {
    ScanPhase { analyzed: r.analyzed, diags: st.diags + r.diags, needs: st.needs + r.needs }
}

pub open spec fn scan_bare(st: ScanPhase) -> ScanPhase {
    ScanPhase { analyzed: st.analyzed, diags: Seq::empty(), needs: Seq::empty() }
}

proof fn lemma_scan_one_frame(facts: &Facts, st: ScanPhase, r: ResolvedStepView)
    ensures
        scan_one(facts, st, r) == scan_after(st, scan_one(facts, scan_bare(st), r)),
{
    assert(st.diags + Seq::<DiagnosticView>::empty() =~= st.diags);
    assert(st.needs + Seq::<QueryView>::empty() =~= st.needs);
    assert(st.needs.push(QueryView::LoadScript(r.script)) =~= st.needs + Seq::<QueryView>::empty().push(
        QueryView::LoadScript(r.script),
    ));
    match facts.spec_script(r.script) {
        Some(ScriptLoad::Unreadable(err)) => {
            assert(push_opt(st.diags, unreadable_step_diag(r.strict, r.script, err@)) =~= st.diags + push_opt(
                Seq::empty(),
                unreadable_step_diag(r.strict, r.script, err@),
            ));
        },
        Some(ScriptLoad::Read { source, parsed }) => match parsed {
            Err(e) => {
                assert(push_opt(st.diags, syntax_error_diag(r.strict, r.script, e.message@, e.range)) =~= st.diags
                    + push_opt(Seq::empty(), syntax_error_diag(r.strict, r.script, e.message@, e.range)));
            },
            Ok(_) => {},
        },
        None => {},
    }
}

proof fn lemma_scan_steps_frame(facts: &Facts, st: ScanPhase, steps: Seq<ResolvedStepView>)
    ensures
        scan_steps(facts, st, steps) == scan_after(st, scan_steps(facts, scan_bare(st), steps)),
    decreases steps.len(),
{
    if steps.len() == 0 {
        assert(st.diags + Seq::<DiagnosticView>::empty() =~= st.diags);
        assert(st.needs + Seq::<QueryView>::empty() =~= st.needs);
    } else {
        let prev = steps.drop_last();
        lemma_scan_steps_frame(facts, st, prev);
        let m = scan_steps(facts, st, prev);
        let m0 = scan_steps(facts, scan_bare(st), prev);
        lemma_scan_one_frame(facts, m, steps.last());
        lemma_scan_one_frame(facts, m0, steps.last());
        assert(scan_bare(m) == scan_bare(m0));
        let x = scan_one(facts, scan_bare(m), steps.last());
        assert(st.diags + m0.diags + x.diags =~= st.diags + (m0.diags + x.diags));
        assert(st.needs + m0.needs + x.needs =~= st.needs + (m0.needs + x.needs));
    }
}

/// The diagnostics checking the river at `root` finds on its own.
pub open spec fn root_diagnostics(facts: &Facts, root: Seq<char>) -> Seq<DiagnosticView> {
    spec_check_root(facts, root, Seq::empty(), Seq::empty()).0
}

/// Checking a root only appends: whatever it started from, it adds the
/// diagnostics the root gives on its own.
pub proof fn lemma_check_root_frame(facts: &Facts, root: Seq<char>, diags: Seq<DiagnosticView>, needs: Seq<QueryView>)
    ensures
        spec_check_root(facts, root, diags, needs).0 == diags + root_diagnostics(facts, root),
{
    let st = ExpState { steps: resolved_view(Seq::empty()), diags, needs };
    let st0 = ExpState { steps: resolved_view(Seq::empty()), diags: Seq::empty(), needs: Seq::empty() };
    crate::pipeline::lemma_exp_file_frame(facts, root, false, Seq::empty(), st);
    let e = exp_file(facts, root, false, Seq::empty(), st);
    let e0 = exp_file(facts, root, false, Seq::empty(), st0);
    assert(crate::pipeline::exp_bare(st) == st0);
    let p = ScanPhase { analyzed: Seq::empty(), diags: e.diags, needs: e.needs };
    let p0 = ScanPhase { analyzed: Seq::empty(), diags: e0.diags, needs: e0.needs };
    lemma_scan_steps_frame(facts, p, e.steps);
    lemma_scan_steps_frame(facts, p0, e0.steps);
    assert(scan_bare(p) == scan_bare(p0));
    let s = scan_steps(facts, p, e.steps);
    let s0 = scan_steps(facts, p0, e0.steps);
    let x = scan_steps(facts, scan_bare(p), e.steps);
    assert(s.analyzed == s0.analyzed);
    assert(s.diags =~= diags + s0.diags) by {
        assert(e.diags == diags + e0.diags);
        assert(diags + e0.diags + x.diags =~= diags + (e0.diags + x.diags));
    }
    let u = spec_unannotated(s.analyzed);
    consume_before_produce::lemma_cbp_frame(facts, s.analyzed, s.diags + u, s.needs);
    consume_before_produce::lemma_cbp_frame(facts, s0.analyzed, s0.diags + u, s0.needs);
    let cb = spec_cbp(facts, s.analyzed, Seq::empty(), Seq::empty()).diags;
    let m = spec_mismatches(s.analyzed);
    assert(s.diags + u + cb + m =~= diags + (s0.diags + u + cb + m));
}

} // verus!
