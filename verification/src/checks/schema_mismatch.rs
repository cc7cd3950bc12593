//! `schema-mismatch`: producer and consumer of the same artifact must agree
//! on the schema symbol. Matching is name-level. `Untyped` and bare
//! (unannotated) calls match anything: the former is a decision, the latter
//! is already reported by `unannotated-io`.

use vstd::prelude::*;

use crate::diagnostic::{diags_prefix, AnnotationView, CheckContext, DiagnosticView, Span, SpanView, SubDiagnosticView, SubLevel};
use crate::pipeline::{make_diag, push_opt};
use crate::python::{Direction, IoCallView, SchemaRef, SchemaRefView};
use crate::rules::{schema_mismatch, RuleId};
use crate::text::{owned, push_str, str_eq, TextRange};

use super::{analyzed_view, spec_artifact_key, AnalyzedStep, AnalyzedView};

verus! {

/// The most recent typed producer of an artifact.
pub struct ProducerView {
    pub schema: Seq<char>,
    pub file: Seq<char>,
    pub range: TextRange,
}

pub struct MismatchState {
    /// Typed producers by artifact key; a later entry shadows an earlier one.
    pub producers: Seq<(Seq<char>, ProducerView)>,
    pub diags: Seq<DiagnosticView>,
}

pub open spec fn latest_producer(ps: Seq<(Seq<char>, ProducerView)>, key: Seq<char>) -> Option<ProducerView>
    decreases ps.len(),
{
    if ps.len() == 0 {
        None
    } else if ps.last().0 == key {
        Some(ps.last().1)
    } else {
        latest_producer(ps.drop_last(), key)
    }
}

pub open spec fn schema_range(c: IoCallView) -> TextRange {
    match c.schema_range {
        Some(r) => r,
        None => c.call_range,
    }
}

pub open spec fn mismatch_diag(
    strict: bool,
    file: Seq<char>,
    path: Seq<char>,
    consumer: Seq<char>,
    c: IoCallView,
    p: ProducerView,
) -> Option<DiagnosticView> {
    make_diag(
        RuleId::SchemaMismatch,
        strict,
        "`"@ + path + "` is consumed as `"@ + consumer + "` but was produced as `"@ + p.schema + "`"@,
        seq![
            AnnotationView {
                span: SpanView { file, range: Some(schema_range(c)) },
                message: Some("consumed as `"@ + consumer + "`"@),
                is_primary: true,
            },
            AnnotationView {
                span: SpanView { file: p.file, range: Some(p.range) },
                message: Some("produced as `"@ + p.schema + "`"@),
                is_primary: false,
            },
        ],
        seq![
            SubDiagnosticView {
                level: SubLevel::Note,
                message: "schema matching is name-level: producer and consumer must use the same schema symbol"@,
            },
        ],
    )
}

/// The effect of one call of a step on the producer table and diagnostics.
pub open spec fn mismatch_call(st: MismatchState, a: AnalyzedView, c: IoCallView) -> MismatchState {
    match c.path {
        None => st,
        Some(path) => {
            let key = spec_artifact_key(a.dir, path);
            match c.direction {
                Direction::Out => match c.schema {
                    SchemaRefView::Named(s) => MismatchState {
                        producers: st.producers.push(
                            (key, ProducerView { schema: s, file: a.file, range: schema_range(c) }),
                        ),
                        ..st
                    },
                    _ => st,
                },
                Direction::In => match c.schema {
                    SchemaRefView::Named(consumer) => match latest_producer(st.producers, key) {
                        Some(p) => if p.schema == consumer {
                            st
                        } else {
                            MismatchState {
                                diags: push_opt(
                                    st.diags,
                                    mismatch_diag(a.strict, a.file, path, consumer, c, p),
                                ),
                                ..st
                            }
                        },
                        None => st,
                    },
                    _ => st,
                },
            }
        },
    }
}

pub open spec fn mismatch_calls(st: MismatchState, a: AnalyzedView, calls: Seq<IoCallView>) -> MismatchState
    decreases calls.len(),
{
    if calls.len() == 0 {
        st
    } else {
        mismatch_call(mismatch_calls(st, a, calls.drop_last()), a, calls.last())
    }
}

pub open spec fn mismatch_steps(steps: Seq<AnalyzedView>) -> MismatchState
    decreases steps.len(),
{
    if steps.len() == 0 {
        MismatchState { producers: Seq::empty(), diags: Seq::empty() }
    } else {
        mismatch_calls(mismatch_steps(steps.drop_last()), steps.last(), steps.last().calls)
    }
}

/// Every `schema-mismatch` diagnostic for the steps, in step and call order.
pub open spec fn spec_mismatches(steps: Seq<AnalyzedView>) -> Seq<DiagnosticView> {
    mismatch_steps(steps).diags
}

struct Producer {
    key: String,
    schema: String,
    file: String,
    range: TextRange,
}

spec fn producers_view(s: Seq<Producer>) -> Seq<(Seq<char>, ProducerView)> {
    s.map_values(|p: Producer| (p.key@, ProducerView { schema: p.schema@, file: p.file@, range: p.range }))
}

fn find_latest(ps: &Vec<Producer>, key: &str) -> (r: Option<usize>)
    ensures
        match latest_producer(producers_view(ps@), key@) {
            None => r.is_none(),
            Some(p) => r.is_some() && r.unwrap() < ps@.len() && (ProducerView {
                schema: ps@[r.unwrap() as int].schema@,
                file: ps@[r.unwrap() as int].file@,
                range: ps@[r.unwrap() as int].range,
            }) == p,
        },
{
    let mut i: usize = ps.len();
    assert(producers_view(ps@).take(i as int) =~= producers_view(ps@));
    while i > 0
        invariant
            i <= ps@.len(),
            latest_producer(producers_view(ps@), key@) == latest_producer(
                producers_view(ps@).take(i as int),
                key@,
            ),
        decreases i,
    {
        let ghost t = producers_view(ps@).take(i as int);
        assert(t.drop_last() =~= producers_view(ps@).take(i - 1));
        assert(t.last() == producers_view(ps@)[i - 1]);
        if str_eq(ps[i - 1].key.as_str(), key) {
            return Some(i - 1);
        }
        i = i - 1;
    }
    None
}

pub fn check(steps: &Vec<AnalyzedStep>, ctx: &mut CheckContext)
    ensures
        final(ctx)@ == old(ctx)@ + spec_mismatches(analyzed_view(steps@)),
{
    let ghost sv = analyzed_view(steps@);
    let mut producers: Vec<Producer> = Vec::new();
    let mut i: usize = 0;
    assert(sv.take(0) =~= Seq::<AnalyzedView>::empty());
    assert(old(ctx)@ + mismatch_steps(sv.take(0)).diags =~= old(ctx)@);
    assert(producers_view(producers@) =~= mismatch_steps(sv.take(0)).producers);
    while i < steps.len()
        invariant
            sv == analyzed_view(steps@),
            i <= sv.len(),
            ctx@ == old(ctx)@ + mismatch_steps(sv.take(i as int)).diags,
            producers_view(producers@) == mismatch_steps(sv.take(i as int)).producers,
        decreases sv.len() - i,
    {
        let step = &steps[i];
        let ghost a = sv[i as int];
        let ghost st0 = mismatch_steps(sv.take(i as int));
        let mut j: usize = 0;
        assert(a.calls.take(0) =~= Seq::<IoCallView>::empty());
        while j < step.file.calls.len()
            invariant
                a == sv[i as int],
                sv == analyzed_view(steps@),
                i < sv.len(),
                a.calls == crate::python::calls_view(step.file.calls@),
                a.strict == step.step.strict,
                a.file == step.file.path@,
                a.dir == step.step.dir@,
                j <= a.calls.len(),
                ctx@ == old(ctx)@ + mismatch_calls(st0, a, a.calls.take(j as int)).diags,
                producers_view(producers@) == mismatch_calls(st0, a, a.calls.take(j as int)).producers,
            decreases a.calls.len() - j,
        {
            let call = &step.file.calls[j];
            let ghost cv = a.calls[j as int];
            assert(cv == call@);
            assert(a.calls.take(j + 1).drop_last() =~= a.calls.take(j as int));
            let ghost before = mismatch_calls(st0, a, a.calls.take(j as int));
            if let Some(path) = &call.path {
                let key = step.artifact_key(path.as_str());
                let range = match call.schema_range {
                    Some(r) => r,
                    None => call.call_range,
                };
                match call.direction {
                    Direction::Out => {
                        if let SchemaRef::Named(schema) = &call.schema {
                            let ghost prev = producers@;
                            let p = Producer {
                                key,
                                schema: schema.clone(),
                                file: step.file.path.clone(),
                                range,
                            };
                            producers.push(p);
                            assert(producers_view(producers@) =~= producers_view(prev).push(
                                (spec_artifact_key(a.dir, path@), ProducerView { schema: schema@, file: a.file, range: schema_range(cv) }),
                            ));
                        }
                    },
                    Direction::In => {
                        if let SchemaRef::Named(consumer) = &call.schema {
                            if let Some(k) = find_latest(&producers, key.as_str()) {
                                let producer = &producers[k];
                                if !str_eq(producer.schema.as_str(), consumer.as_str()) {
                                    let rule = schema_mismatch();
                                    let ghost mid = ctx@;
                                    if let Some(b) = ctx.report(&rule, step.step.strict) {
                                        let mut msg = owned("`");
                                        push_str(&mut msg, path.as_str());
                                        push_str(&mut msg, "` is consumed as `");
                                        push_str(&mut msg, consumer.as_str());
                                        push_str(&mut msg, "` but was produced as `");
                                        push_str(&mut msg, producer.schema.as_str());
                                        push_str(&mut msg, "`");
                                        let mut primary = owned("consumed as `");
                                        push_str(&mut primary, consumer.as_str());
                                        push_str(&mut primary, "`");
                                        let mut secondary = owned("produced as `");
                                        push_str(&mut secondary, producer.schema.as_str());
                                        push_str(&mut secondary, "`");
                                        let b = b.message(msg).primary(
                                            Span::new(step.file.path.clone(), range),
                                            primary,
                                        ).secondary(Span::new(producer.file.clone(), producer.range), secondary).note(
                                            owned(
                                                "schema matching is name-level: producer and consumer must use the same schema symbol",
                                            ),
                                        );
                                        proof {
                                            let pv = latest_producer(before.producers, spec_artifact_key(a.dir, path@)).unwrap();
                                            assert(b@.annotations =~= mismatch_diag(a.strict, a.file, path@, consumer@, cv, pv).unwrap().annotations);
                                            assert(b@.subs =~= mismatch_diag(a.strict, a.file, path@, consumer@, cv, pv).unwrap().subs);
                                            assert(b@.message =~= mismatch_diag(a.strict, a.file, path@, consumer@, cv, pv).unwrap().message);
                                        }
                                        b.emit(ctx);
                                    }
                                }
                            }
                        }
                    },
                }
            }
            assert(ctx@ =~= old(ctx)@ + mismatch_calls(st0, a, a.calls.take(j + 1)).diags);
            j = j + 1;
        }
        assert(a.calls.take(a.calls.len() as int) =~= a.calls);
        assert(sv.take(i + 1).drop_last() =~= sv.take(i as int));
        i = i + 1;
    }
    assert(sv.take(sv.len() as int) =~= sv);
}

/// Every entry of the producer table names schema `s`.
pub open spec fn all_produced_as(ps: Seq<(Seq<char>, ProducerView)>, s: Seq<char>) -> bool {
    forall|i: int| 0 <= i < ps.len() ==> (#[trigger] ps[i]).1.schema == s
}

/// Every call of `calls` that names a schema names `s`.
pub open spec fn calls_name_only(calls: Seq<IoCallView>, s: Seq<char>) -> bool {
    forall|j: int| 0 <= j < calls.len() ==> match (#[trigger] calls[j]).schema {
        SchemaRefView::Named(x) => x == s,
        _ => true,
    }
}

proof fn lemma_latest_in(ps: Seq<(Seq<char>, ProducerView)>, key: Seq<char>)
    ensures
        match latest_producer(ps, key) {
            Some(p) => exists|i: int| 0 <= i < ps.len() && #[trigger] ps[i].1 == p,
            None => true,
        },
    decreases ps.len(),
{
    if ps.len() > 0 && ps.last().0 != key {
        lemma_latest_in(ps.drop_last(), key);
        if let Some(p) = latest_producer(ps.drop_last(), key) {
            let i = choose|i: int| 0 <= i < ps.drop_last().len() && #[trigger] ps.drop_last()[i].1 == p;
            assert(ps[i] == ps.drop_last()[i]);
        }
    } else if ps.len() > 0 {
        assert(ps[ps.len() - 1].1 == ps.last().1);
    }
}

proof fn lemma_calls_agree(st: MismatchState, a: AnalyzedView, calls: Seq<IoCallView>, s: Seq<char>)
    requires
        all_produced_as(st.producers, s),
        calls_name_only(calls, s),
    ensures
        mismatch_calls(st, a, calls).diags == st.diags,
        all_produced_as(mismatch_calls(st, a, calls).producers, s),
    decreases calls.len(),
{
    if calls.len() > 0 {
        let prev = calls.drop_last();
        assert forall|j: int| 0 <= j < prev.len() implies match (#[trigger] prev[j]).schema {
            SchemaRefView::Named(x) => x == s,
            _ => true,
        } by {
            assert(prev[j] == calls[j]);
        }
        lemma_calls_agree(st, a, prev, s);
        let mid = mismatch_calls(st, a, prev);
        let c = calls.last();
        assert(calls[calls.len() - 1] == c);
        if let Some(path) = c.path {
            let key = spec_artifact_key(a.dir, path);
            lemma_latest_in(mid.producers, key);
            let next = mismatch_call(mid, a, c);
            assert forall|i: int| 0 <= i < next.producers.len() implies (#[trigger] next.producers[i]).1.schema
                == s by {
                if i < mid.producers.len() {
                    assert(next.producers[i] == mid.producers[i]);
                }
            }
        }
    }
}

/// Name-level matching: when every call of a river that names a schema
/// names the same one, no artifact is reported as mismatched; in
/// particular a river of only bare and `Untyped` calls never is.
pub proof fn lemma_one_schema_never_mismatches(steps: Seq<AnalyzedView>, s: Seq<char>)
    requires
        forall|k: int| 0 <= k < steps.len() ==> calls_name_only(#[trigger] steps[k].calls, s),
    ensures
        spec_mismatches(steps) == Seq::<DiagnosticView>::empty(),
        all_produced_as(mismatch_steps(steps).producers, s),
    decreases steps.len(),
{
    if steps.len() > 0 {
        let prev = steps.drop_last();
        assert forall|k: int| 0 <= k < prev.len() implies calls_name_only(#[trigger] prev[k].calls, s) by {
            assert(prev[k] == steps[k]);
        }
        lemma_one_schema_never_mismatches(prev, s);
        assert(steps[steps.len() - 1] == steps.last());
        lemma_calls_agree(mismatch_steps(prev), steps.last(), steps.last().calls, s);
    } else {
        assert(all_produced_as(Seq::empty(), s));
    }
}

proof fn lemma_calls_prefix(st: MismatchState, a: AnalyzedView, calls: Seq<IoCallView>, m: int)
    requires
        0 <= m <= calls.len(),
    ensures
        diags_prefix(mismatch_calls(st, a, calls.take(m)).diags, mismatch_calls(st, a, calls).diags),
    decreases calls.len(),
{
    if m == calls.len() {
        assert(calls.take(m) =~= calls);
    } else {
        let prev = calls.drop_last();
        assert(prev.take(m) =~= calls.take(m));
        lemma_calls_prefix(st, a, prev, m);
    }
}

proof fn lemma_steps_prefix(steps: Seq<AnalyzedView>, m: int)
    requires
        0 <= m <= steps.len(),
    ensures
        diags_prefix(mismatch_steps(steps.take(m)).diags, mismatch_steps(steps).diags),
    decreases steps.len(),
{
    if m == steps.len() {
        assert(steps.take(m) =~= steps);
    } else {
        let prev = steps.drop_last();
        assert(prev.take(m) =~= steps.take(m));
        lemma_steps_prefix(prev, m);
        let mid = mismatch_steps(prev);
        lemma_calls_prefix(mid, steps.last(), steps.last().calls, 0);
        assert(steps.last().calls.take(0) =~= Seq::<IoCallView>::empty());
    }
}

/// The producer table as call `j` of step `k` finds it.
pub open spec fn table_before(steps: Seq<AnalyzedView>, k: int, j: int) -> MismatchState {
    mismatch_calls(mismatch_steps(steps.take(k)), steps[k], steps[k].calls.take(j))
}

/// Reading the wrong schema is reported with both sides: when a typed
/// consumer names another schema than the latest typed producer of the
/// artifact before it, the check gives the diagnostic that points at the
/// consumer and at that producer.
pub proof fn lemma_wrong_schema_is_reported(steps: Seq<AnalyzedView>, k: int, j: int)
    requires
        0 <= k < steps.len(),
        0 <= j < steps[k].calls.len(),
        steps[k].calls[j].direction == Direction::In,
        steps[k].calls[j].path is Some,
        steps[k].calls[j].schema is Named,
        latest_producer(
            table_before(steps, k, j).producers,
            spec_artifact_key(steps[k].dir, steps[k].calls[j].path->Some_0),
        ) is Some,
        latest_producer(
            table_before(steps, k, j).producers,
            spec_artifact_key(steps[k].dir, steps[k].calls[j].path->Some_0),
        )->Some_0.schema != steps[k].calls[j].schema->Named_0,
    ensures
        ({
            let a = steps[k];
            let c = a.calls[j];
            let p = c.path->Some_0;
            let producer = latest_producer(table_before(steps, k, j).producers, spec_artifact_key(a.dir, p))->Some_0;
            let d = mismatch_diag(a.strict, a.file, p, c.schema->Named_0, c, producer);
            &&& d is Some
            &&& spec_mismatches(steps).contains(d->Some_0)
        }),
{
    let a = steps[k];
    let c = a.calls[j];
    let p = c.path->Some_0;
    let key = spec_artifact_key(a.dir, p);
    let producer = latest_producer(table_before(steps, k, j).producers, key)->Some_0;
    let d = mismatch_diag(a.strict, a.file, p, c.schema->Named_0, c, producer);
    let sk = mismatch_steps(steps.take(k));
    let sj = table_before(steps, k, j);
    assert(a.calls.take(j + 1).drop_last() =~= a.calls.take(j));
    assert(a.calls.take(j + 1).last() == c);
    let sj1 = mismatch_calls(sk, a, a.calls.take(j + 1));
    assert(sj1 == mismatch_call(sj, a, c));
    assert(sj1.diags == sj.diags.push(d->Some_0));
    lemma_calls_prefix(sk, a, a.calls, j + 1);
    assert(steps.take(k + 1).drop_last() =~= steps.take(k));
    assert(steps.take(k + 1).last() == a);
    let sk1 = mismatch_steps(steps.take(k + 1));
    assert(sk1 == mismatch_calls(sk, a, a.calls));
    lemma_steps_prefix(steps, k + 1);
    let at = sj.diags.len() as int;
    assert(sj1.diags[at] == d->Some_0);
    assert(sk1.diags[at] == d->Some_0);
    assert(spec_mismatches(steps)[at] == d->Some_0);
}

/// `d` is the diagnostic of call `j` of step `k`: a typed consumer that
/// names another schema than the latest typed producer of the artifact
/// before it.
pub open spec fn reports_mismatch(steps: Seq<AnalyzedView>, k: int, j: int, d: DiagnosticView) -> bool {
    &&& 0 <= k < steps.len()
    &&& 0 <= j < steps[k].calls.len()
    &&& steps[k].calls[j].direction == Direction::In
    &&& steps[k].calls[j].path is Some
    &&& steps[k].calls[j].schema is Named
    &&& ({
        let a = steps[k];
        let c = a.calls[j];
        let p = c.path->Some_0;
        let latest = latest_producer(table_before(steps, k, j).producers, spec_artifact_key(a.dir, p));
        &&& latest is Some
        &&& latest->Some_0.schema != c.schema->Named_0
        &&& mismatch_diag(a.strict, a.file, p, c.schema->Named_0, c, latest->Some_0) == Some(d)
    })
}

/// `d` is the diagnostic of some consumer that disagrees with its producer.
pub open spec fn from_mismatch(steps: Seq<AnalyzedView>, d: DiagnosticView) -> bool {
    exists|k: int, j: int| #[trigger] reports_mismatch(steps, k, j, d)
}

spec fn all_from_mismatch(steps: Seq<AnalyzedView>, s: Seq<DiagnosticView>) -> bool {
    forall|i: int| 0 <= i < s.len() ==> from_mismatch(steps, #[trigger] s[i])
}

proof fn lemma_table_only_mismatches(steps: Seq<AnalyzedView>, k: int, m: int)
    requires
        0 <= k < steps.len(),
        0 <= m <= steps[k].calls.len(),
        all_from_mismatch(steps, mismatch_steps(steps.take(k)).diags),
    ensures
        all_from_mismatch(steps, table_before(steps, k, m).diags),
    decreases m,
{
    let a = steps[k];
    if m == 0 {
        assert(a.calls.take(0) =~= Seq::<IoCallView>::empty());
    } else {
        lemma_table_only_mismatches(steps, k, m - 1);
        assert(a.calls.take(m).drop_last() =~= a.calls.take(m - 1));
        assert(a.calls.take(m).last() == a.calls[m - 1]);
        let mid = table_before(steps, k, m - 1);
        let next = table_before(steps, k, m);
        assert(next == mismatch_call(mid, a, a.calls[m - 1]));
        assert forall|i: int| 0 <= i < next.diags.len() implies from_mismatch(steps, #[trigger] next.diags[i]) by {
            if i < mid.diags.len() {
                assert(next.diags[i] == mid.diags[i]);
            } else {
                assert(reports_mismatch(steps, k, m - 1, next.diags[i]));
            }
        }
    }
}

proof fn lemma_steps_only_mismatches(steps: Seq<AnalyzedView>, n: int)
    requires
        0 <= n <= steps.len(),
    ensures
        all_from_mismatch(steps, mismatch_steps(steps.take(n)).diags),
    decreases n,
{
    if n == 0 {
        assert(steps.take(0) =~= Seq::<AnalyzedView>::empty());
    } else {
        lemma_steps_only_mismatches(steps, n - 1);
        let a = steps[n - 1];
        lemma_table_only_mismatches(steps, n - 1, a.calls.len() as int);
        assert(steps.take(n).drop_last() =~= steps.take(n - 1));
        assert(steps.take(n).last() == a);
        assert(a.calls.take(a.calls.len() as int) =~= a.calls);
        assert(mismatch_steps(steps.take(n)) == table_before(steps, n - 1, a.calls.len() as int));
    }
}

/// `schema-mismatch` reports nothing else: every diagnostic it gives is
/// that of a typed consumer naming another schema than the latest typed
/// producer of the artifact before it.
pub proof fn lemma_only_wrong_schemas_are_reported(steps: Seq<AnalyzedView>)
    ensures
        forall|i: int| 0 <= i < spec_mismatches(steps).len() ==> from_mismatch(steps, #[trigger] spec_mismatches(steps)[i]),
{
    lemma_steps_only_mismatches(steps, steps.len() as int);
    assert(steps.take(steps.len() as int) =~= steps);
}

/// The producer table is keyed by artifact identity: after a typed
/// `riv_out` of literal `p` in step `a`, the latest producer of the
/// artifact `p` resolved against `a`'s directory is that call; a later typed
/// `riv_in` of the same artifact (the same literal in the same directory,
/// or any literal that resolves to it) is reported when it names another
/// schema and accepted when it names the same one.
pub proof fn lemma_consumer_meets_its_producer(
    st: MismatchState,
    a: AnalyzedView,
    c1: IoCallView,
    b: AnalyzedView,
    c2: IoCallView,
)
    requires
        c1.direction == Direction::Out,
        c1.path is Some,
        c1.schema is Named,
        c2.direction == Direction::In,
        c2.path is Some,
        c2.schema is Named,
        crate::paths::spec_normalize(crate::paths::spec_join(b.dir, c2.path->Some_0)) == crate::paths::spec_normalize(
            crate::paths::spec_join(a.dir, c1.path->Some_0),
        ),
    ensures
        ({
            let key = crate::paths::spec_normalize(crate::paths::spec_join(a.dir, c1.path->Some_0));
            let producer = ProducerView { schema: c1.schema->Named_0, file: a.file, range: schema_range(c1) };
            let mid = mismatch_call(st, a, c1);
            let fin = mismatch_call(mid, b, c2);
            &&& mid.diags == st.diags
            &&& latest_producer(mid.producers, key) == Some(producer)
            &&& c2.schema->Named_0 == c1.schema->Named_0 ==> fin.diags == st.diags
            &&& c2.schema->Named_0 != c1.schema->Named_0 ==> fin.diags == push_opt(
                st.diags,
                mismatch_diag(b.strict, b.file, c2.path->Some_0, c2.schema->Named_0, c2, producer),
            )
        }),
{
}

} // verus!
