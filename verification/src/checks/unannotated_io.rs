//! `unannotated-io`: a bare `riv_in()`/`riv_out()` with no schema attached.
//! Warn by default; `strict: true` promotes it to an error. `Untyped.riv_*`
//! emits nothing: a decision, not a suppression.

use vstd::prelude::*;

use crate::diagnostic::{CheckContext, DiagnosticView, Span, SpanView, SubDiagnosticView, SubLevel};
use crate::pipeline::{make_diag, primary_at, push_opt};
use crate::python::{Direction, IoCallView, SchemaRef};
use crate::rules::{unannotated_io, RuleId};
use crate::text::{owned, push_str};

use super::{AnalyzedStep, AnalyzedView, analyzed_view};

verus! {

pub open spec fn verb(d: Direction) -> Seq<char> {
    match d {
        Direction::In => "consumed"@,
        Direction::Out => "produced"@,
    }
}

pub open spec fn example(d: Direction) -> Seq<char> {
    match d {
        Direction::In => "df = UsersDf.riv_in(path)"@,
        Direction::Out => "UsersDf.riv_out(df, path)"@,
    }
}

pub open spec fn function_name(d: Direction) -> Seq<char> {
    match d {
        Direction::In => "riv_in"@,
        Direction::Out => "riv_out"@,
    }
}

pub open spec fn what(path: Option<Seq<char>>) -> Seq<char> {
    match path {
        Some(p) => "artifact `"@ + p + "`"@,
        None => "this artifact"@,
    }
}

/// The warning for one bare call in `file`.
pub open spec fn unannotated_diag(strict: bool, file: Seq<char>, c: IoCallView) -> Option<DiagnosticView> {
    make_diag(
        RuleId::UnannotatedIo,
        strict,
        what(c.path) + " is "@ + verb(c.direction) + " without a schema; the checker cannot see it"@,
        primary_at(
            SpanView { file, range: Some(c.call_range) },
            "bare `"@ + function_name(c.direction) + "()`"@,
        ),
        seq![
            SubDiagnosticView {
                level: SubLevel::Help,
                message: "attach a schema (`"@ + example(c.direction) + "`) or mark the decision with `Untyped."@
                    + function_name(c.direction) + "(...)`"@,
            },
        ],
    )
}

pub open spec fn unannotated_calls(strict: bool, file: Seq<char>, calls: Seq<IoCallView>) -> Seq<
    DiagnosticView,
>
    decreases calls.len(),
{
    if calls.len() == 0 {
        Seq::empty()
    } else {
        let prev = unannotated_calls(strict, file, calls.drop_last());
        if calls.last().schema is Unannotated {
            push_opt(prev, unannotated_diag(strict, file, calls.last()))
        } else {
            prev
        }
    }
}

/// Every `unannotated-io` diagnostic for the steps, in step and call order.
pub open spec fn spec_unannotated(steps: Seq<AnalyzedView>) -> Seq<DiagnosticView>
    decreases steps.len(),
{
    if steps.len() == 0 {
        Seq::empty()
    } else {
        spec_unannotated(steps.drop_last()) + unannotated_calls(
            steps.last().strict,
            steps.last().file,
            steps.last().calls,
        )
    }
}

pub fn check(steps: &Vec<AnalyzedStep>, ctx: &mut CheckContext)
    ensures
        final(ctx)@ == old(ctx)@ + spec_unannotated(analyzed_view(steps@)),
{
    let ghost sv = analyzed_view(steps@);
    let mut i: usize = 0;
    assert(sv.take(0) =~= Seq::<AnalyzedView>::empty());
    assert(old(ctx)@ + spec_unannotated(sv.take(0)) =~= old(ctx)@);
    while i < steps.len()
        invariant
            sv == analyzed_view(steps@),
            i <= sv.len(),
            ctx@ == old(ctx)@ + spec_unannotated(sv.take(i as int)),
        decreases sv.len() - i,
    {
        let step = &steps[i];
        let ghost a = sv[i as int];
        let ghost base = ctx@;
        let mut j: usize = 0;
        assert(a.calls.take(0) =~= Seq::<IoCallView>::empty());
        assert(base + unannotated_calls(a.strict, a.file, a.calls.take(0)) =~= base);
        while j < step.file.calls.len()
            invariant
                a == sv[i as int],
                sv == analyzed_view(steps@),
                i < sv.len(),
                a.calls == crate::python::calls_view(step.file.calls@),
                a.strict == step.step.strict,
                a.file == step.file.path@,
                j <= a.calls.len(),
                ctx@ == base + unannotated_calls(a.strict, a.file, a.calls.take(j as int)),
            decreases a.calls.len() - j,
        {
            let call = &step.file.calls[j];
            let ghost cv = a.calls[j as int];
            assert(cv == call@);
            assert(a.calls.take(j + 1).drop_last() =~= a.calls.take(j as int));
            let ghost mid = ctx@;
            if let SchemaRef::Unannotated = call.schema {
                let rule = unannotated_io();
                if let Some(b) = ctx.report(&rule, step.step.strict) {
                    let mut msg = match &call.path {
                        Some(path) => {
                            let mut w = owned("artifact `");
                            push_str(&mut w, path.as_str());
                            push_str(&mut w, "`");
                            w
                        },
                        None => owned("this artifact"),
                    };
                    let (vb, ex) = match call.direction {
                        Direction::In => ("consumed", "df = UsersDf.riv_in(path)"),
                        Direction::Out => ("produced", "UsersDf.riv_out(df, path)"),
                    };
                    push_str(&mut msg, " is ");
                    push_str(&mut msg, vb);
                    push_str(&mut msg, " without a schema; the checker cannot see it");
                    let fname = call.direction.function_name();
                    let mut label = owned("bare `");
                    push_str(&mut label, fname);
                    push_str(&mut label, "()`");
                    let mut help = owned("attach a schema (`");
                    push_str(&mut help, ex);
                    push_str(&mut help, "`) or mark the decision with `Untyped.");
                    push_str(&mut help, fname);
                    push_str(&mut help, "(...)`");
                    let ghost hv = help@;
                    let b = b.message(msg).primary(
                        Span::new(step.file.path.clone(), call.call_range),
                        label,
                    ).help(help);
                    proof {
                        assert(msg@ =~= what(cv.path) + " is "@ + verb(cv.direction)
                            + " without a schema; the checker cannot see it"@);
                        assert(hv =~= "attach a schema (`"@ + example(cv.direction)
                            + "`) or mark the decision with `Untyped."@ + function_name(cv.direction)
                            + "(...)`"@);
                        assert(b@.annotations =~= primary_at(
                            SpanView { file: a.file, range: Some(cv.call_range) },
                            "bare `"@ + function_name(cv.direction) + "()`"@,
                        ));
                        assert(b@.subs =~= seq![
                            SubDiagnosticView { level: SubLevel::Help, message: hv },
                        ]);
                    }
                    b.emit(ctx);
                }
                assert(ctx@ == push_opt(mid, unannotated_diag(a.strict, a.file, cv)));
            }
            assert(ctx@ =~= base + unannotated_calls(a.strict, a.file, a.calls.take(j + 1)));
            j = j + 1;
        }
        assert(a.calls.take(a.calls.len() as int) =~= a.calls);
        assert(sv.take(i + 1).drop_last() =~= sv.take(i as int));
        assert(ctx@ =~= old(ctx)@ + spec_unannotated(sv.take(i + 1)));
        i = i + 1;
    }
    assert(sv.take(sv.len() as int) =~= sv);
}

/// Gradual typing: in steps that are not strict, a bare call is a warning,
/// never an error; in strict steps it is an error. Every diagnostic of the
/// check belongs to `unannotated-io`.
pub proof fn lemma_untyped_only_warns(steps: Seq<AnalyzedView>)
    ensures
        forall|i: int|
            0 <= i < spec_unannotated(steps).len() ==> (#[trigger] spec_unannotated(steps)[i]).rule
                == RuleId::UnannotatedIo && (spec_unannotated(steps)[i].severity
                == crate::diagnostic::Severity::Warning || exists|k: int| 0 <= k < steps.len() && steps[k].strict),
        (forall|k: int| 0 <= k < steps.len() ==> !(#[trigger] steps[k]).strict) ==> forall|i: int|
            0 <= i < spec_unannotated(steps).len() ==> (#[trigger] spec_unannotated(steps)[i]).severity
                == crate::diagnostic::Severity::Warning,
        (forall|k: int| 0 <= k < steps.len() ==> (#[trigger] steps[k]).strict) ==> forall|i: int|
            0 <= i < spec_unannotated(steps).len() ==> (#[trigger] spec_unannotated(steps)[i]).severity
                == crate::diagnostic::Severity::Error,
    decreases steps.len(),
{
    if steps.len() > 0 {
        let prev = steps.drop_last();
        lemma_untyped_only_warns(prev);
        let a = steps.last();
        lemma_calls_severity(a.strict, a.file, a.calls);
        let all = spec_unannotated(steps);
        let p = spec_unannotated(prev);
        let c = unannotated_calls(a.strict, a.file, a.calls);
        assert(all == p + c);
        assert forall|i: int| 0 <= i < all.len() implies (#[trigger] all[i]).rule == RuleId::UnannotatedIo && (
        all[i].severity == crate::diagnostic::Severity::Warning || exists|k: int|
            0 <= k < steps.len() && steps[k].strict) by {
            if i < p.len() {
                assert(all[i] == p[i]);
                if p[i].severity != crate::diagnostic::Severity::Warning {
                    let k = choose|k: int| 0 <= k < prev.len() && prev[k].strict;
                    assert(steps[k] == prev[k]);
                }
            } else {
                assert(all[i] == c[i - p.len()]);
                if a.strict {
                    assert(steps[steps.len() - 1] == a);
                }
            }
        }
        if forall|k: int| 0 <= k < steps.len() ==> !(#[trigger] steps[k]).strict {
            assert forall|k: int| 0 <= k < prev.len() implies !(#[trigger] prev[k]).strict by {
                assert(prev[k] == steps[k]);
            }
            assert(!steps[steps.len() - 1].strict);
            assert forall|i: int| 0 <= i < all.len() implies (#[trigger] all[i]).severity
                == crate::diagnostic::Severity::Warning by {
                if i < p.len() {
                    assert(all[i] == p[i]);
                } else {
                    assert(all[i] == c[i - p.len()]);
                }
            }
        }
        if forall|k: int| 0 <= k < steps.len() ==> (#[trigger] steps[k]).strict {
            assert forall|k: int| 0 <= k < prev.len() implies (#[trigger] prev[k]).strict by {
                assert(prev[k] == steps[k]);
            }
            assert(steps[steps.len() - 1].strict);
            assert forall|i: int| 0 <= i < all.len() implies (#[trigger] all[i]).severity
                == crate::diagnostic::Severity::Error by {
                if i < p.len() {
                    assert(all[i] == p[i]);
                } else {
                    assert(all[i] == c[i - p.len()]);
                }
            }
        }
    }
}

proof fn lemma_calls_severity(strict: bool, file: Seq<char>, calls: Seq<IoCallView>)
    ensures
        forall|i: int|
            0 <= i < unannotated_calls(strict, file, calls).len() ==> (#[trigger] unannotated_calls(
                strict,
                file,
                calls,
            )[i]).rule == RuleId::UnannotatedIo && unannotated_calls(strict, file, calls)[i].severity == (
            if strict {
                crate::diagnostic::Severity::Error
            } else {
                crate::diagnostic::Severity::Warning
            }),
    decreases calls.len(),
{
    if calls.len() > 0 {
        lemma_calls_severity(strict, file, calls.drop_last());
    }
}

/// The escape hatch: calls that name a schema, `Untyped` included, are
/// never reported; a step with no bare call adds nothing.
pub proof fn lemma_annotated_calls_silent(steps: Seq<AnalyzedView>)
    requires
        forall|k: int, j: int|
            0 <= k < steps.len() && 0 <= j < steps[k].calls.len() ==> !((#[trigger] steps[k].calls[j]).schema is Unannotated),
    ensures
        spec_unannotated(steps) == Seq::<DiagnosticView>::empty(),
    decreases steps.len(),
{
    if steps.len() > 0 {
        let prev = steps.drop_last();
        assert forall|k: int, j: int|
            0 <= k < prev.len() && 0 <= j < prev[k].calls.len() implies !((#[trigger] prev[k].calls[j]).schema is Unannotated) by {
            assert(prev[k] == steps[k]);
        }
        lemma_annotated_calls_silent(prev);
        let a = steps.last();
        assert forall|j: int| 0 <= j < a.calls.len() implies !((#[trigger] a.calls[j]).schema is Unannotated) by {
            assert(steps[steps.len() - 1].calls[j] == a.calls[j]);
        }
        lemma_no_bare_calls(a.strict, a.file, a.calls);
        assert(spec_unannotated(steps) =~= Seq::<DiagnosticView>::empty());
    }
}

proof fn lemma_no_bare_calls(strict: bool, file: Seq<char>, calls: Seq<IoCallView>)
    requires
        forall|j: int| 0 <= j < calls.len() ==> !((#[trigger] calls[j]).schema is Unannotated),
    ensures
        unannotated_calls(strict, file, calls) == Seq::<DiagnosticView>::empty(),
    decreases calls.len(),
{
    if calls.len() > 0 {
        let prev = calls.drop_last();
        assert forall|j: int| 0 <= j < prev.len() implies !((#[trigger] prev[j]).schema is Unannotated) by {
            assert(prev[j] == calls[j]);
        }
        lemma_no_bare_calls(strict, file, prev);
        assert(!(calls[calls.len() - 1].schema is Unannotated));
    }
}

/// `d` is the diagnostic of a bare call among `calls`.
spec fn from_bare_call(strict: bool, file: Seq<char>, calls: Seq<IoCallView>, d: DiagnosticView) -> bool {
    exists|j: int|
        0 <= j < calls.len() && (#[trigger] calls[j]).schema is Unannotated && unannotated_diag(strict, file, calls[j])
            == Some(d)
}

/// `d` is the diagnostic of a bare call of one of `steps`.
pub open spec fn from_bare_step_call(steps: Seq<AnalyzedView>, d: DiagnosticView) -> bool {
    exists|k: int, j: int|
        0 <= k < steps.len() && 0 <= j < steps[k].calls.len() && (#[trigger] steps[k].calls[j]).schema is Unannotated
            && unannotated_diag(steps[k].strict, steps[k].file, steps[k].calls[j]) == Some(d)
}

/// Within one step, a call gives a diagnostic exactly when it is bare.
proof fn lemma_calls_reported_iff(strict: bool, file: Seq<char>, calls: Seq<IoCallView>)
    ensures
        forall|j: int|
            0 <= j < calls.len() && (#[trigger] calls[j]).schema is Unannotated ==> unannotated_diag(
                strict,
                file,
                calls[j],
            ) is Some && unannotated_calls(strict, file, calls).contains(
                unannotated_diag(strict, file, calls[j]).unwrap(),
            ),
        forall|i: int|
            0 <= i < unannotated_calls(strict, file, calls).len() ==> from_bare_call(
                strict,
                file,
                calls,
                #[trigger] unannotated_calls(strict, file, calls)[i],
            ),
    decreases calls.len(),
{
    if calls.len() > 0 {
        let prev = calls.drop_last();
        lemma_calls_reported_iff(strict, file, prev);
        let u = unannotated_calls(strict, file, calls);
        let p = unannotated_calls(strict, file, prev);
        let last = calls.len() - 1;
        assert(calls[last] == calls.last());
        assert forall|j: int| 0 <= j < calls.len() && (#[trigger] calls[j]).schema is Unannotated implies unannotated_diag(
            strict,
            file,
            calls[j],
        ) is Some && u.contains(unannotated_diag(strict, file, calls[j]).unwrap()) by {
            if j < last {
                assert(calls[j] == prev[j]);
                let d = unannotated_diag(strict, file, calls[j]).unwrap();
                assert(p.contains(d));
                let idx = choose|idx: int| 0 <= idx < p.len() && p[idx] == d;
                assert(u[idx] == p[idx]);
            } else {
                assert(u[p.len() as int] == unannotated_diag(strict, file, calls[j]).unwrap());
            }
        }
        assert forall|i: int| 0 <= i < u.len() implies from_bare_call(strict, file, calls, #[trigger] u[i]) by {
            if i < p.len() {
                assert(u[i] == p[i]);
                assert(from_bare_call(strict, file, prev, p[i]));
                let j = choose|j: int|
                    0 <= j < prev.len() && (#[trigger] prev[j]).schema is Unannotated && unannotated_diag(
                        strict,
                        file,
                        prev[j],
                    ) == Some(p[i]);
                assert(calls[j] == prev[j]);
            } else {
                assert(calls[last].schema is Unannotated);
                assert(unannotated_diag(strict, file, calls[last]) == Some(u[i]));
            }
        }
    }
}

/// `unannotated-io` reports a call exactly when it is bare: each bare call
/// of each step gives its diagnostic, and every diagnostic of the check is
/// that of a bare call.
pub proof fn lemma_unannotated_reported_iff(steps: Seq<AnalyzedView>)
    ensures
        forall|k: int, j: int|
            0 <= k < steps.len() && 0 <= j < steps[k].calls.len() && (#[trigger] steps[k].calls[j]).schema is Unannotated
                ==> unannotated_diag(steps[k].strict, steps[k].file, steps[k].calls[j]) is Some
                && spec_unannotated(steps).contains(
                unannotated_diag(steps[k].strict, steps[k].file, steps[k].calls[j]).unwrap(),
            ),
        forall|i: int|
            0 <= i < spec_unannotated(steps).len() ==> from_bare_step_call(
                steps,
                #[trigger] spec_unannotated(steps)[i],
            ),
    decreases steps.len(),
{
    if steps.len() > 0 {
        let prev = steps.drop_last();
        lemma_unannotated_reported_iff(prev);
        let a = steps.last();
        let last = steps.len() - 1;
        assert(steps[last] == a);
        lemma_calls_reported_iff(a.strict, a.file, a.calls);
        let all = spec_unannotated(steps);
        let p = spec_unannotated(prev);
        let c = unannotated_calls(a.strict, a.file, a.calls);
        assert(all == p + c);
        assert forall|k: int, j: int|
            0 <= k < steps.len() && 0 <= j < steps[k].calls.len() && (#[trigger] steps[k].calls[j]).schema is Unannotated
                implies unannotated_diag(steps[k].strict, steps[k].file, steps[k].calls[j]) is Some && all.contains(
            unannotated_diag(steps[k].strict, steps[k].file, steps[k].calls[j]).unwrap(),
        ) by {
            let d = unannotated_diag(steps[k].strict, steps[k].file, steps[k].calls[j]).unwrap();
            if k < last {
                assert(steps[k] == prev[k]);
                assert(prev[k].calls[j] == steps[k].calls[j]);
                assert(p.contains(d));
                let idx = choose|idx: int| 0 <= idx < p.len() && p[idx] == d;
                assert(all[idx] == p[idx]);
            } else {
                assert(a.calls[j] == steps[k].calls[j]);
                assert(c.contains(d));
                let idx = choose|idx: int| 0 <= idx < c.len() && c[idx] == d;
                assert(all[p.len() + idx] == c[idx]);
            }
        }
        assert forall|i: int| 0 <= i < all.len() implies from_bare_step_call(steps, #[trigger] all[i]) by {
            if i < p.len() {
                assert(all[i] == p[i]);
                assert(from_bare_step_call(prev, p[i]));
                let (k, j) = choose|k: int, j: int|
                    0 <= k < prev.len() && 0 <= j < prev[k].calls.len() && (#[trigger] prev[k].calls[j]).schema is Unannotated
                        && unannotated_diag(prev[k].strict, prev[k].file, prev[k].calls[j]) == Some(p[i]);
                assert(steps[k] == prev[k]);
                assert(steps[k].calls[j] == prev[k].calls[j]);
            } else {
                assert(all[i] == c[i - p.len()]);
                assert(from_bare_call(a.strict, a.file, a.calls, c[i - p.len()]));
                let j = choose|j: int|
                    0 <= j < a.calls.len() && (#[trigger] a.calls[j]).schema is Unannotated && unannotated_diag(
                        a.strict,
                        a.file,
                        a.calls[j],
                    ) == Some(c[i - p.len()]);
                assert(steps[last].calls[j] == a.calls[j]);
            }
        }
    }
}

} // verus!
