//! `consume-before-produce`: the `steps:` list is ordered and authoritative;
//! riv does not reorder steps. A `riv_in` of an artifact that only a later
//! step produces is an ordering bug. An artifact no step produces is legal
//! when it already exists on disk (external input data); when it does not,
//! nothing can ever have written it and the run is doomed.

use vstd::prelude::*;

use crate::diagnostic::{diags_prefix, CheckContext, DiagnosticView, Span, SpanView, SubDiagnosticView, SubLevel};
use crate::facts::{queries_view, Facts, Query, QueryView};
use crate::pipeline::{contains_path, make_diag, primary_at, push_need, push_opt};
use crate::python::{Direction, IoCallView};
use crate::rules::{consume_before_produce, RuleId};
use crate::text::{owned, push_str, str_eq};

use super::{analyzed_view, spec_artifact_key, AnalyzedStep, AnalyzedView};

verus! {

/// Whether some call of step `a` produces the artifact `key`.
pub open spec fn produces(a: AnalyzedView, key: Seq<char>) -> bool {
    exists|j: int|
        0 <= j < a.calls.len() && (#[trigger] a.calls[j]).direction == Direction::Out && match a.calls[j].path {
            Some(p) => spec_artifact_key(a.dir, p) == key,
            None => false,
        }
}

/// The first step that produces `key`, from step `from` on.
pub open spec fn first_producer_from(steps: Seq<AnalyzedView>, key: Seq<char>, from: int) -> Option<int>
    decreases steps.len() - from,
{
    if from < 0 || from >= steps.len() {
        None
    } else if produces(steps[from], key) {
        Some(from)
    } else {
        first_producer_from(steps, key, from + 1)
    }
}

pub open spec fn cbp_note(steps: Seq<AnalyzedView>, key: Seq<char>) -> Seq<char> {
    match first_producer_from(steps, key, 0) {
        Some(i) => "`"@ + steps[i].file
            + "` produces it, but runs later — steps run in the order listed; riv does not reorder them"@,
        None => "no step in this pipeline produces it, and it does not exist on disk"@,
    }
}

pub open spec fn cbp_diag(steps: Seq<AnalyzedView>, a: AnalyzedView, c: IoCallView, path: Seq<char>, key: Seq<
    char,
>) -> Option<DiagnosticView> {
    make_diag(
        RuleId::ConsumeBeforeProduce,
        a.strict,
        "`"@ + path + "` is consumed before it is produced"@,
        primary_at(SpanView { file: a.file, range: Some(c.call_range) }, "`"@ + path + "` does not exist yet"@),
        seq![SubDiagnosticView { level: SubLevel::Note, message: cbp_note(steps, key) }],
    )
}

pub struct CbpState {
    /// Keys of the artifacts produced so far.
    pub produced: Seq<Seq<char>>,
    pub diags: Seq<DiagnosticView>,
    pub needs: Seq<QueryView>,
}

/// The effect of one call: outputs are recorded; an input of an artifact
/// that nothing produced so far and that is not on disk is reported.
pub open spec fn cbp_call(facts: &Facts, steps: Seq<AnalyzedView>, st: CbpState, a: AnalyzedView, c: IoCallView) -> CbpState {
    match c.path {
        None => st,
        Some(path) => {
            let key = spec_artifact_key(a.dir, path);
            match c.direction {
                Direction::Out => CbpState { produced: st.produced.push(key), ..st },
                Direction::In => if st.produced.contains(key) {
                    st
                } else {
                    match facts.spec_is_file(key) {
                        Some(true) => st,
                        None => CbpState { needs: st.needs.push(QueryView::IsFile(key)), ..st },
                        Some(false) => CbpState {
                            diags: push_opt(st.diags, cbp_diag(steps, a, c, path, key)),
                            ..st
                        },
                    }
                },
            }
        },
    }
}

pub open spec fn cbp_calls(facts: &Facts, steps: Seq<AnalyzedView>, st: CbpState, a: AnalyzedView, calls: Seq<IoCallView>) -> CbpState
    decreases calls.len(),
{
    if calls.len() == 0 {
        st
    } else {
        cbp_call(facts, steps, cbp_calls(facts, steps, st, a, calls.drop_last()), a, calls.last())
    }
}

/// The check over the first `n` steps, starting from `st`.
pub open spec fn cbp_steps(facts: &Facts, steps: Seq<AnalyzedView>, st: CbpState, n: int) -> CbpState
    decreases n,
{
    if n <= 0 || n > steps.len() {
        st
    } else {
        cbp_calls(facts, steps, cbp_steps(facts, steps, st, n - 1), steps[n - 1], steps[n - 1].calls)
    }
}

/// The check over all steps, from the diagnostics and needs so far.
pub open spec fn spec_cbp(facts: &Facts, steps: Seq<AnalyzedView>, diags: Seq<DiagnosticView>, needs: Seq<QueryView>) -> CbpState {
    cbp_steps(facts, steps, CbpState { produced: Seq::empty(), diags, needs }, steps.len() as int)
}

pub proof fn lemma_first_producer_from(steps: Seq<AnalyzedView>, key: Seq<char>, from: int)
    requires
        0 <= from,
    ensures
        match first_producer_from(steps, key, from) {
            Some(i) => from <= i < steps.len() && produces(steps[i], key),
            None => forall|i: int| from <= i < steps.len() ==> !produces(steps[i], key),
        },
    decreases steps.len() - from,
{
    if from < steps.len() && !produces(steps[from], key) {
        lemma_first_producer_from(steps, key, from + 1);
    }
}

fn step_produces(step: &AnalyzedStep, key: &str) -> (r: bool)
    ensures
        r == produces(step@, key@),
{
    let ghost a = step@;
    let mut j: usize = 0;
    while j < step.file.calls.len()
        invariant
            a == step@,
            j <= a.calls.len(),
            forall|k: int|
                0 <= k < j ==> !((#[trigger] a.calls[k]).direction == Direction::Out && match a.calls[k].path {
                    Some(p) => spec_artifact_key(a.dir, p) == key@,
                    None => false,
                }),
        decreases a.calls.len() - j,
    {
        let call = &step.file.calls[j];
        assert(call@ == a.calls[j as int]);
        if let Direction::Out = call.direction {
            if let Some(p) = &call.path {
                let k = step.artifact_key(p.as_str());
                if str_eq(k.as_str(), key) {
                    return true;
                }
            }
        }
        j = j + 1;
    }
    false
}

fn first_producer(steps: &Vec<AnalyzedStep>, key: &str) -> (r: Option<usize>)
    ensures
        match first_producer_from(analyzed_view(steps@), key@, 0) {
            None => r.is_none(),
            Some(i) => r.is_some() && r.unwrap() == i,
        },
{
    let ghost sv = analyzed_view(steps@);
    let mut i: usize = 0;
    while i < steps.len()
        invariant
            sv == analyzed_view(steps@),
            i <= sv.len(),
            first_producer_from(sv, key@, 0) == first_producer_from(sv, key@, i as int),
        decreases sv.len() - i,
    {
        if step_produces(&steps[i], key) {
            return Some(i);
        }
        i = i + 1;
    }
    None
}

pub fn check(steps: &Vec<AnalyzedStep>, facts: &Facts, needs: &mut Vec<Query>, ctx: &mut CheckContext)
    ensures
        final(ctx)@ == spec_cbp(facts, analyzed_view(steps@), old(ctx)@, queries_view(old(needs)@)).diags,
        queries_view(final(needs)@) == spec_cbp(facts, analyzed_view(steps@), old(ctx)@, queries_view(old(needs)@)).needs,
{
    let ghost sv = analyzed_view(steps@);
    let ghost init = CbpState { produced: Seq::empty(), diags: ctx@, needs: queries_view(needs@) };
    let mut produced: Vec<String> = Vec::new();
    let mut i: usize = 0;
    assert(crate::pipeline::strings_view(produced@) =~= Seq::<Seq<char>>::empty());
    while i < steps.len()
        invariant
            sv == analyzed_view(steps@),
            i <= sv.len(),
            init == (CbpState { produced: Seq::empty(), diags: old(ctx)@, needs: queries_view(old(needs)@) }),
            cbp_steps(facts, sv, init, i as int) == (CbpState {
                produced: crate::pipeline::strings_view(produced@),
                diags: ctx@,
                needs: queries_view(needs@),
            }),
        decreases sv.len() - i,
    {
        let step = &steps[i];
        let ghost a = sv[i as int];
        let ghost st0 = cbp_steps(facts, sv, init, i as int);
        let mut j: usize = 0;
        assert(a.calls.take(0) =~= Seq::<IoCallView>::empty());
        while j < step.file.calls.len()
            invariant
                a == sv[i as int],
                sv == analyzed_view(steps@),
                i < sv.len(),
                a.calls == crate::python::calls_view(step.file.calls@),
                a.strict == step.step.strict,
                a.file == step.file.path@,
                a.dir == step.step.dir@,
                j <= a.calls.len(),
                cbp_calls(facts, sv, st0, a, a.calls.take(j as int)) == (CbpState {
                    produced: crate::pipeline::strings_view(produced@),
                    diags: ctx@,
                    needs: queries_view(needs@),
                }),
            decreases a.calls.len() - j,
        {
            let call = &step.file.calls[j];
            let ghost cv = a.calls[j as int];
            assert(cv == call@);
            assert(a.calls.take(j + 1).drop_last() =~= a.calls.take(j as int));
            if let Some(path) = &call.path {
                let key = step.artifact_key(path.as_str());
                match call.direction {
                    Direction::Out => {
                        let ghost prev = produced@;
                        let ghost kv = key@;
                        produced.push(key);
                        assert(crate::pipeline::strings_view(produced@) =~= crate::pipeline::strings_view(prev).push(kv));
                    },
                    Direction::In => {
                        if !contains_path(&produced, key.as_str()) {
                            match facts.is_file(key.as_str()) {
                                Some(true) => {},
                                None => push_need(needs, Query::IsFile(key)),
                                Some(false) => {
                                    let rule = consume_before_produce();
                                    if let Some(b) = ctx.report(&rule, step.step.strict) {
                                        let mut msg = owned("`");
                                        push_str(&mut msg, path.as_str());
                                        push_str(&mut msg, "` is consumed before it is produced");
                                        let mut label = owned("`");
                                        push_str(&mut label, path.as_str());
                                        push_str(&mut label, "` does not exist yet");
                                        let note = match first_producer(steps, key.as_str()) {
                                            Some(k) => {
                                                proof {
                                                    lemma_first_producer_from(sv, key@, 0);
                                                }
                                                let mut n = owned("`");
                                                push_str(&mut n, steps[k].file.path.as_str());
                                                push_str(
                                                    &mut n,
                                                    "` produces it, but runs later — steps run in the order listed; riv does not reorder them",
                                                );
                                                n
                                            },
                                            None => owned(
                                                "no step in this pipeline produces it, and it does not exist on disk",
                                            ),
                                        };
                                        let ghost nv = note@;
                                        let b = b.message(msg).primary(
                                            Span::new(step.file.path.clone(), call.call_range),
                                            label,
                                        ).note(note);
                                        proof {
                                            assert(nv == cbp_note(sv, key@));
                                            assert(b@.annotations =~= cbp_diag(sv, a, cv, path@, key@).unwrap().annotations);
                                            assert(b@.subs =~= cbp_diag(sv, a, cv, path@, key@).unwrap().subs);
                                            assert(b@.message =~= cbp_diag(sv, a, cv, path@, key@).unwrap().message);
                                        }
                                        b.emit(ctx);
                                    }
                                },
                            }
                        }
                    },
                }
            }
            j = j + 1;
        }
        assert(a.calls.take(a.calls.len() as int) =~= a.calls);
        i = i + 1;
    }
}

/// Keys of the artifacts that `calls` of step `a` produce, in call order.
pub open spec fn out_keys(a: AnalyzedView, calls: Seq<IoCallView>) -> Seq<Seq<char>>
    decreases calls.len(),
{
    if calls.len() == 0 {
        Seq::empty()
    } else {
        let prev = out_keys(a, calls.drop_last());
        let c = calls.last();
        match (c.direction, c.path) {
            (Direction::Out, Some(p)) => prev.push(spec_artifact_key(a.dir, p)),
            _ => prev,
        }
    }
}

/// Keys of the artifacts that the first `n` steps produce, in order.
pub open spec fn steps_out_keys(steps: Seq<AnalyzedView>, n: int) -> Seq<Seq<char>>
    decreases n,
{
    if n <= 0 || n > steps.len() {
        Seq::empty()
    } else {
        steps_out_keys(steps, n - 1) + out_keys(steps[n - 1], steps[n - 1].calls)
    }
}

/// The artifacts produced before call `j` of step `k` runs.
pub open spec fn produced_before(steps: Seq<AnalyzedView>, k: int, j: int) -> Seq<Seq<char>> {
    steps_out_keys(steps, k) + out_keys(steps[k], steps[k].calls.take(j))
}

/// Every consumption in step `k` reads an artifact produced before it.
pub open spec fn step_consumes_produced(steps: Seq<AnalyzedView>, k: int) -> bool {
    forall|j: int|
        0 <= j < steps[k].calls.len() ==> match ((#[trigger] steps[k].calls[j]).direction, steps[k].calls[j].path) {
            (Direction::In, Some(p)) => produced_before(steps, k, j).contains(spec_artifact_key(steps[k].dir, p)),
            _ => true,
        }
}

proof fn lemma_cbp_calls_produced(
    facts: &Facts,
    steps: Seq<AnalyzedView>,
    st: CbpState,
    a: AnalyzedView,
    calls: Seq<IoCallView>,
)
    requires
        forall|j: int|
            0 <= j < calls.len() ==> match ((#[trigger] calls[j]).direction, calls[j].path) {
                (Direction::In, Some(p)) => (st.produced + out_keys(a, calls.take(j))).contains(
                    spec_artifact_key(a.dir, p),
                ),
                _ => true,
            },
    ensures
        cbp_calls(facts, steps, st, a, calls).produced == st.produced + out_keys(a, calls),
        cbp_calls(facts, steps, st, a, calls).diags == st.diags,
        cbp_calls(facts, steps, st, a, calls).needs == st.needs,
    decreases calls.len(),
{
    if calls.len() == 0 {
        assert(st.produced + Seq::<Seq<char>>::empty() =~= st.produced);
    } else {
        let prev = calls.drop_last();
        let n = calls.len() - 1;
        assert forall|j: int| 0 <= j < prev.len() implies match ((#[trigger] prev[j]).direction, prev[j].path) {
            (Direction::In, Some(p)) => (st.produced + out_keys(a, prev.take(j))).contains(
                spec_artifact_key(a.dir, p),
            ),
            _ => true,
        } by {
            assert(prev[j] == calls[j]);
            assert(prev.take(j) =~= calls.take(j));
        }
        lemma_cbp_calls_produced(facts, steps, st, a, prev);
        let c = calls.last();
        assert(calls[n] == c);
        assert(calls.take(n) =~= prev);
        match (c.direction, c.path) {
            (Direction::Out, Some(p)) => {
                assert(st.produced + out_keys(a, prev).push(spec_artifact_key(a.dir, p)) =~= (st.produced
                    + out_keys(a, prev)).push(spec_artifact_key(a.dir, p)));
            },
            _ => {},
        }
    }
}

proof fn lemma_cbp_steps_produced(facts: &Facts, steps: Seq<AnalyzedView>, st: CbpState, n: int)
    requires
        0 <= n <= steps.len(),
        st.produced == Seq::<Seq<char>>::empty(),
        forall|k: int| 0 <= k < n ==> step_consumes_produced(steps, k),
    ensures
        cbp_steps(facts, steps, st, n).produced == steps_out_keys(steps, n),
        cbp_steps(facts, steps, st, n).diags == st.diags,
        cbp_steps(facts, steps, st, n).needs == st.needs,
    decreases n,
{
    if n == 0 {
    } else {
        lemma_cbp_steps_produced(facts, steps, st, n - 1);
        let mid = cbp_steps(facts, steps, st, n - 1);
        let a = steps[n - 1];
        assert(step_consumes_produced(steps, n - 1));
        assert forall|j: int| 0 <= j < a.calls.len() implies match ((#[trigger] a.calls[j]).direction, a.calls[j].path) {
            (Direction::In, Some(p)) => (mid.produced + out_keys(a, a.calls.take(j))).contains(
                spec_artifact_key(a.dir, p),
            ),
            _ => true,
        } by {
            assert(steps[n - 1].calls[j] == a.calls[j]);
        }
        lemma_cbp_calls_produced(facts, steps, mid, a, a.calls);
    }
}

/// The order check accepts a river in which every artifact is produced by
/// an earlier call (an earlier step, or earlier in the same step) before it
/// is consumed: it reports nothing and needs no fact about the disk.
pub proof fn lemma_produced_before_consumed_is_accepted(
    facts: &Facts,
    steps: Seq<AnalyzedView>,
    diags: Seq<DiagnosticView>,
    needs: Seq<QueryView>,
)
    requires
        forall|k: int| 0 <= k < steps.len() ==> step_consumes_produced(steps, k),
    ensures
        spec_cbp(facts, steps, diags, needs).diags == diags,
        spec_cbp(facts, steps, diags, needs).needs == needs,
{
    lemma_cbp_steps_produced(
        facts,
        steps,
        CbpState { produced: Seq::empty(), diags, needs },
        steps.len() as int,
    );
}

proof fn lemma_cbp_call_grows(facts: &Facts, steps: Seq<AnalyzedView>, st: CbpState, a: AnalyzedView, c: IoCallView)
    ensures
        diags_prefix(st.diags, cbp_call(facts, steps, st, a, c).diags),
        cbp_call(facts, steps, st, a, c).produced == match (c.direction, c.path) {
            (Direction::Out, Some(p)) => st.produced.push(spec_artifact_key(a.dir, p)),
            _ => st.produced,
        },
{
}

proof fn lemma_cbp_calls_grow(facts: &Facts, steps: Seq<AnalyzedView>, st: CbpState, a: AnalyzedView, calls: Seq<IoCallView>)
    ensures
        diags_prefix(st.diags, cbp_calls(facts, steps, st, a, calls).diags),
        cbp_calls(facts, steps, st, a, calls).produced == st.produced + out_keys(a, calls),
    decreases calls.len(),
{
    if calls.len() == 0 {
        assert(st.produced + Seq::<Seq<char>>::empty() =~= st.produced);
    } else {
        let prev = calls.drop_last();
        lemma_cbp_calls_grow(facts, steps, st, a, prev);
        let mid = cbp_calls(facts, steps, st, a, prev);
        lemma_cbp_call_grows(facts, steps, mid, a, calls.last());
        match (calls.last().direction, calls.last().path) {
            (Direction::Out, Some(p)) => {
                assert(st.produced + out_keys(a, prev).push(spec_artifact_key(a.dir, p)) =~= (st.produced
                    + out_keys(a, prev)).push(spec_artifact_key(a.dir, p)));
            },
            _ => {},
        }
    }
}

proof fn lemma_cbp_calls_prefix(
    facts: &Facts,
    steps: Seq<AnalyzedView>,
    st: CbpState,
    a: AnalyzedView,
    calls: Seq<IoCallView>,
    m: int,
)
    requires
        0 <= m <= calls.len(),
    ensures
        diags_prefix(
            cbp_calls(facts, steps, st, a, calls.take(m)).diags,
            cbp_calls(facts, steps, st, a, calls).diags,
        ),
    decreases calls.len(),
{
    if m == calls.len() {
        assert(calls.take(m) =~= calls);
    } else {
        let prev = calls.drop_last();
        assert(prev.take(m) =~= calls.take(m));
        lemma_cbp_calls_prefix(facts, steps, st, a, prev, m);
        lemma_cbp_call_grows(facts, steps, cbp_calls(facts, steps, st, a, prev), a, calls.last());
    }
}

proof fn lemma_cbp_steps_grow(facts: &Facts, steps: Seq<AnalyzedView>, st: CbpState, n: int, m: int)
    requires
        0 <= m <= n <= steps.len(),
    ensures
        diags_prefix(cbp_steps(facts, steps, st, m).diags, cbp_steps(facts, steps, st, n).diags),
        cbp_steps(facts, steps, st, n).produced == st.produced + steps_out_keys(steps, n),
    decreases n,
{
    if n == 0 {
        assert(st.produced + Seq::<Seq<char>>::empty() =~= st.produced);
    } else {
        if m == n {
            lemma_cbp_steps_grow(facts, steps, st, n - 1, n - 1);
        } else {
            lemma_cbp_steps_grow(facts, steps, st, n - 1, m);
        }
        let mid = cbp_steps(facts, steps, st, n - 1);
        lemma_cbp_calls_grow(facts, steps, mid, steps[n - 1], steps[n - 1].calls);
        assert(st.produced + steps_out_keys(steps, n - 1) + out_keys(steps[n - 1], steps[n - 1].calls)
            =~= st.produced + (steps_out_keys(steps, n - 1) + out_keys(steps[n - 1], steps[n - 1].calls)));
    }
}

/// The order check reports every consumption of an artifact that no
/// earlier call produced and that is not on disk: the diagnostic for that
/// call is among those the check gives.
pub proof fn lemma_unproduced_consumption_is_reported(
    facts: &Facts,
    steps: Seq<AnalyzedView>,
    diags: Seq<DiagnosticView>,
    needs: Seq<QueryView>,
    k: int,
    j: int,
)
    requires
        0 <= k < steps.len(),
        0 <= j < steps[k].calls.len(),
        steps[k].calls[j].direction == Direction::In,
        steps[k].calls[j].path is Some,
        !produced_before(steps, k, j).contains(spec_artifact_key(steps[k].dir, steps[k].calls[j].path->Some_0)),
        facts.spec_is_file(spec_artifact_key(steps[k].dir, steps[k].calls[j].path->Some_0)) == Some(false),
    ensures
        ({
            let c = steps[k].calls[j];
            let p = c.path->Some_0;
            let d = cbp_diag(steps, steps[k], c, p, spec_artifact_key(steps[k].dir, p));
            &&& d is Some
            &&& spec_cbp(facts, steps, diags, needs).diags.contains(d->Some_0)
        }),
{
    let st0 = CbpState { produced: Seq::empty(), diags, needs };
    let a = steps[k];
    let c = a.calls[j];
    let p = c.path->Some_0;
    let key = spec_artifact_key(a.dir, p);
    let d = cbp_diag(steps, a, c, p, key);
    lemma_cbp_steps_grow(facts, steps, st0, k, k);
    let sk = cbp_steps(facts, steps, st0, k);
    assert(sk.produced == steps_out_keys(steps, k)) by {
        assert(Seq::<Seq<char>>::empty() + steps_out_keys(steps, k) =~= steps_out_keys(steps, k));
    }
    lemma_cbp_calls_grow(facts, steps, sk, a, a.calls.take(j));
    let sj = cbp_calls(facts, steps, sk, a, a.calls.take(j));
    assert(sj.produced == produced_before(steps, k, j));
    assert(a.calls.take(j + 1).drop_last() =~= a.calls.take(j));
    assert(a.calls.take(j + 1).last() == c);
    let sj1 = cbp_calls(facts, steps, sk, a, a.calls.take(j + 1));
    assert(sj1 == cbp_call(facts, steps, sj, a, c));
    assert(sj1.diags == sj.diags.push(d->Some_0));
    lemma_cbp_calls_prefix(facts, steps, sk, a, a.calls, j + 1);
    let sk1 = cbp_steps(facts, steps, st0, k + 1);
    assert(sk1 == cbp_calls(facts, steps, sk, a, a.calls));
    lemma_cbp_steps_grow(facts, steps, st0, steps.len() as int, k + 1);
    let fin = spec_cbp(facts, steps, diags, needs);
    let at = sj.diags.len() as int;
    assert(sj1.diags[at] == d->Some_0);
    assert(sk1.diags[at] == d->Some_0);
    assert(fin.diags[at] == d->Some_0);
}

/// `d` is the diagnostic of call `j` of step `k`, a consumption of an
/// artifact that no earlier call produced and that is not on disk.
pub open spec fn reports_unproduced(facts: &Facts, steps: Seq<AnalyzedView>, k: int, j: int, d: DiagnosticView) -> bool {
    &&& 0 <= k < steps.len()
    &&& 0 <= j < steps[k].calls.len()
    &&& steps[k].calls[j].direction == Direction::In
    &&& steps[k].calls[j].path is Some
    &&& !produced_before(steps, k, j).contains(spec_artifact_key(steps[k].dir, steps[k].calls[j].path->Some_0))
    &&& facts.spec_is_file(spec_artifact_key(steps[k].dir, steps[k].calls[j].path->Some_0)) == Some(false)
    &&& cbp_diag(
        steps,
        steps[k],
        steps[k].calls[j],
        steps[k].calls[j].path->Some_0,
        spec_artifact_key(steps[k].dir, steps[k].calls[j].path->Some_0),
    ) == Some(d)
}

/// `d` is the diagnostic of some consumption of an unproduced artifact.
pub open spec fn from_unproduced(facts: &Facts, steps: Seq<AnalyzedView>, d: DiagnosticView) -> bool {
    exists|k: int, j: int| #[trigger] reports_unproduced(facts, steps, k, j, d)
}

/// Every diagnostic of `s` from `base` on is that of an unproduced consumption.
spec fn all_from_unproduced(facts: &Facts, steps: Seq<AnalyzedView>, s: Seq<DiagnosticView>, base: int) -> bool {
    forall|i: int| base <= i < s.len() ==> from_unproduced(facts, steps, #[trigger] s[i])
}

proof fn lemma_cbp_calls_only_unproduced(facts: &Facts, steps: Seq<AnalyzedView>, st: CbpState, k: int, m: int, base: int)
    requires
        0 <= k < steps.len(),
        0 <= m <= steps[k].calls.len(),
        0 <= base,
        st.produced == steps_out_keys(steps, k),
        all_from_unproduced(facts, steps, st.diags, base),
    ensures
        all_from_unproduced(facts, steps, cbp_calls(facts, steps, st, steps[k], steps[k].calls.take(m)).diags, base),
    decreases m,
{
    let a = steps[k];
    if m == 0 {
        assert(a.calls.take(0) =~= Seq::<IoCallView>::empty());
    } else {
        lemma_cbp_calls_only_unproduced(facts, steps, st, k, m - 1, base);
        assert(a.calls.take(m).drop_last() =~= a.calls.take(m - 1));
        assert(a.calls.take(m).last() == a.calls[m - 1]);
        let mid = cbp_calls(facts, steps, st, a, a.calls.take(m - 1));
        lemma_cbp_calls_grow(facts, steps, st, a, a.calls.take(m - 1));
        assert(mid.produced == produced_before(steps, k, m - 1));
        let c = a.calls[m - 1];
        let next = cbp_call(facts, steps, mid, a, c);
        assert(next == cbp_calls(facts, steps, st, a, a.calls.take(m)));
        lemma_cbp_call_grows(facts, steps, mid, a, c);
        assert forall|i: int| base <= i < next.diags.len() implies from_unproduced(facts, steps, #[trigger] next.diags[i]) by {
            if i < mid.diags.len() {
                assert(next.diags[i] == mid.diags[i]);
            } else {
                assert(reports_unproduced(facts, steps, k, m - 1, next.diags[i]));
            }
        }
    }
}

proof fn lemma_cbp_steps_only_unproduced(facts: &Facts, steps: Seq<AnalyzedView>, st: CbpState, n: int, base: int)
    requires
        0 <= n <= steps.len(),
        0 <= base,
        st.produced == Seq::<Seq<char>>::empty(),
        all_from_unproduced(facts, steps, st.diags, base),
    ensures
        all_from_unproduced(facts, steps, cbp_steps(facts, steps, st, n).diags, base),
    decreases n,
{
    if n > 0 {
        lemma_cbp_steps_only_unproduced(facts, steps, st, n - 1, base);
        lemma_cbp_steps_grow(facts, steps, st, n - 1, n - 1);
        let mid = cbp_steps(facts, steps, st, n - 1);
        assert(mid.produced == steps_out_keys(steps, n - 1)) by {
            assert(Seq::<Seq<char>>::empty() + steps_out_keys(steps, n - 1) =~= steps_out_keys(steps, n - 1));
        }
        let a = steps[n - 1];
        assert(a.calls.take(a.calls.len() as int) =~= a.calls);
        lemma_cbp_calls_only_unproduced(facts, steps, mid, n - 1, a.calls.len() as int, base);
    }
}

/// The order check reports nothing else: it keeps the diagnostics it
/// started from, and each one it adds is that of a consumption of an
/// artifact that no earlier call produced and that is not on disk.
pub proof fn lemma_cbp_reports_only_unproduced(
    facts: &Facts,
    steps: Seq<AnalyzedView>,
    diags: Seq<DiagnosticView>,
    needs: Seq<QueryView>,
)
    ensures
        diags_prefix(diags, spec_cbp(facts, steps, diags, needs).diags),
        forall|i: int|
            diags.len() <= i < spec_cbp(facts, steps, diags, needs).diags.len() ==> from_unproduced(
                facts,
                steps,
                #[trigger] spec_cbp(facts, steps, diags, needs).diags[i],
            ),
{
    let st0 = CbpState { produced: Seq::empty(), diags, needs };
    lemma_cbp_steps_grow(facts, steps, st0, steps.len() as int, 0);
    lemma_cbp_steps_only_unproduced(facts, steps, st0, steps.len() as int, diags.len() as int);
}

/// `st` followed by the diagnostics and needs of `r`, with what `r` produced.
pub open spec fn cbp_after(st: CbpState, r: CbpState) -> CbpState {
    CbpState { produced: r.produced, diags: st.diags + r.diags, needs: st.needs + r.needs }
}

pub open spec fn cbp_bare(st: CbpState) -> CbpState {
    CbpState { produced: st.produced, diags: Seq::empty(), needs: Seq::empty() }
}

proof fn lemma_cbp_call_frame(facts: &Facts, steps: Seq<AnalyzedView>, st: CbpState, a: AnalyzedView, c: IoCallView)
    ensures
        cbp_call(facts, steps, st, a, c) == cbp_after(st, cbp_call(facts, steps, cbp_bare(st), a, c)),
{
    assert(st.diags + Seq::<DiagnosticView>::empty() =~= st.diags);
    assert(st.needs + Seq::<QueryView>::empty() =~= st.needs);
    if let Some(path) = c.path {
        let key = spec_artifact_key(a.dir, path);
        assert(st.needs.push(QueryView::IsFile(key)) =~= st.needs + Seq::<QueryView>::empty().push(QueryView::IsFile(key)));
        assert(push_opt(st.diags, cbp_diag(steps, a, c, path, key)) =~= st.diags + push_opt(
            Seq::empty(),
            cbp_diag(steps, a, c, path, key),
        ));
    }
}

proof fn lemma_cbp_calls_frame(facts: &Facts, steps: Seq<AnalyzedView>, st: CbpState, a: AnalyzedView, calls: Seq<IoCallView>)
    ensures
        cbp_calls(facts, steps, st, a, calls) == cbp_after(st, cbp_calls(facts, steps, cbp_bare(st), a, calls)),
    decreases calls.len(),
{
    if calls.len() == 0 {
        assert(st.diags + Seq::<DiagnosticView>::empty() =~= st.diags);
        assert(st.needs + Seq::<QueryView>::empty() =~= st.needs);
    } else {
        let prev = calls.drop_last();
        lemma_cbp_calls_frame(facts, steps, st, a, prev);
        let m = cbp_calls(facts, steps, st, a, prev);
        let m0 = cbp_calls(facts, steps, cbp_bare(st), a, prev);
        lemma_cbp_call_frame(facts, steps, m, a, calls.last());
        lemma_cbp_call_frame(facts, steps, m0, a, calls.last());
        assert(cbp_bare(m) == cbp_bare(m0));
        let x = cbp_call(facts, steps, cbp_bare(m), a, calls.last());
        assert(st.diags + m0.diags + x.diags =~= st.diags + (m0.diags + x.diags));
        assert(st.needs + m0.needs + x.needs =~= st.needs + (m0.needs + x.needs));
    }
}

proof fn lemma_cbp_steps_frame(facts: &Facts, steps: Seq<AnalyzedView>, st: CbpState, n: int)
    ensures
        cbp_steps(facts, steps, st, n) == cbp_after(st, cbp_steps(facts, steps, cbp_bare(st), n)),
    decreases n,
{
    if n <= 0 || n > steps.len() {
        assert(st.diags + Seq::<DiagnosticView>::empty() =~= st.diags);
        assert(st.needs + Seq::<QueryView>::empty() =~= st.needs);
    } else {
        lemma_cbp_steps_frame(facts, steps, st, n - 1);
        let m = cbp_steps(facts, steps, st, n - 1);
        let m0 = cbp_steps(facts, steps, cbp_bare(st), n - 1);
        lemma_cbp_calls_frame(facts, steps, m, steps[n - 1], steps[n - 1].calls);
        lemma_cbp_calls_frame(facts, steps, m0, steps[n - 1], steps[n - 1].calls);
        assert(cbp_bare(m) == cbp_bare(m0));
        let x = cbp_calls(facts, steps, cbp_bare(m), steps[n - 1], steps[n - 1].calls);
        assert(st.diags + m0.diags + x.diags =~= st.diags + (m0.diags + x.diags));
        assert(st.needs + m0.needs + x.needs =~= st.needs + (m0.needs + x.needs));
    }
}

/// The order check only appends: what it adds does not depend on the
/// diagnostics and needs it starts from.
pub proof fn lemma_cbp_frame(facts: &Facts, steps: Seq<AnalyzedView>, diags: Seq<DiagnosticView>, needs: Seq<QueryView>)
    ensures
        spec_cbp(facts, steps, diags, needs).diags == diags + spec_cbp(facts, steps, Seq::empty(), Seq::empty()).diags,
        spec_cbp(facts, steps, diags, needs).needs == needs + spec_cbp(facts, steps, Seq::empty(), Seq::empty()).needs,
{
    lemma_cbp_steps_frame(facts, steps, CbpState { produced: Seq::empty(), diags, needs }, steps.len() as int);
}

/// A consumption is judged by the artifact in its river's directory: an
/// input whose literal `p`, resolved against the step's directory, nothing
/// produced so far asks the disk about that resolved path, and is accepted
/// when that path exists, reported when it does not.
pub proof fn lemma_consumption_looks_in_river_dir(
    facts: &Facts,
    steps: Seq<AnalyzedView>,
    st: CbpState,
    a: AnalyzedView,
    c: IoCallView,
)
    requires
        c.direction == Direction::In,
        (c.path is Some),
        !st.produced.contains(crate::paths::spec_normalize(crate::paths::spec_join(a.dir, c.path->Some_0))),
    ensures
        ({
            let q = crate::paths::spec_normalize(crate::paths::spec_join(a.dir, c.path->Some_0));
            let r = cbp_call(facts, steps, st, a, c);
            &&& r.produced == st.produced
            &&& facts.spec_is_file(q) == Some(true) ==> r == st
            &&& (facts.spec_is_file(q) is None) ==> (r == (CbpState { needs: st.needs.push(QueryView::IsFile(q)), ..st }))
            &&& facts.spec_is_file(q) == Some(false) ==> r.needs == st.needs && r.diags == push_opt(
                st.diags,
                cbp_diag(steps, a, c, c.path->Some_0, q),
            )
        }),
{
}

/// An output records the artifact in its river's directory: after a
/// `riv_out` of literal `p`, the resolved `p` counts as produced.
pub proof fn lemma_output_produces_in_river_dir(
    facts: &Facts,
    steps: Seq<AnalyzedView>,
    st: CbpState,
    a: AnalyzedView,
    c: IoCallView,
)
    requires
        c.direction == Direction::Out,
        c.path is Some,
    ensures
        cbp_call(facts, steps, st, a, c) == (CbpState {
            produced: st.produced.push(crate::paths::spec_normalize(crate::paths::spec_join(a.dir, c.path->Some_0))),
            ..st
        }),
{
}

} // verus!
