//! The diagnostic data model: named rule, severity, message,
//! primary/secondary annotations, sub-diagnostics. Rendering lives in
//! [`crate::render`]; checks never touch it.

use vstd::prelude::*;

use crate::rules::{spec_default_level, spec_rule_name, Level, Rule, RuleId};
use crate::text::TextRange;

verus! {

#[derive(Debug, Clone, Copy, PartialEq, Eq, PartialOrd, Ord, Structural)]
pub enum Severity {
    Warning,
    Error,
}

/// A file plus an optional byte range inside it. Line/column are computed
/// only at render time.
#[derive(Debug, Clone)]
pub struct Span {
    pub file: String,
    pub range: Option<TextRange>,
}

pub struct SpanView {
    pub file: Seq<char>,
    pub range: Option<TextRange>,
}

impl View for Span {
    type V = SpanView;

    open spec fn view(&self) -> SpanView {
        SpanView { file: self.file@, range: self.range }
    }
}

impl Span {
    pub fn new(file: String, range: TextRange) -> (s: Span)
        ensures
            s@ == (SpanView { file: file@, range: Some(range) }),
    {
        Span { file, range: Some(range) }
    }

    pub fn file_only(file: String) -> (s: Span)
        ensures
            s@ == (SpanView { file: file@, range: None }),
    {
        Span { file, range: None }
    }

    pub fn duplicate(&self) -> (s: Span)
        ensures
            s@ == self@,
    {
        Span { file: self.file.clone(), range: self.range }
    }
}

/// One source pointer. Exactly one annotation per diagnostic is primary;
/// secondaries add context: the cross-file secondary points at the
/// producing `riv_out` when the primary is at the consuming `riv_in`.
#[derive(Debug, Clone)]
pub struct Annotation {
    pub span: Span,
    pub message: Option<String>,
    pub is_primary: bool,
}

pub struct AnnotationView {
    pub span: SpanView,
    pub message: Option<Seq<char>>,
    pub is_primary: bool,
}

pub open spec fn opt_view(s: Option<String>) -> Option<Seq<char>> {
    match s {
        Some(t) => Some(t@),
        None => None,
    }
}

impl View for Annotation {
    type V = AnnotationView;

    open spec fn view(&self) -> AnnotationView {
        AnnotationView { span: self.span@, message: opt_view(self.message), is_primary: self.is_primary }
    }
}

impl Annotation {
    pub fn primary(span: Span, message: String) -> (a: Annotation)
        ensures
            a@ == (AnnotationView { span: span@, message: Some(message@), is_primary: true }),
    {
        Annotation { span, message: Some(message), is_primary: true }
    }

    pub fn secondary(span: Span, message: String) -> (a: Annotation)
        ensures
            a@ == (AnnotationView { span: span@, message: Some(message@), is_primary: false }),
    {
        Annotation { span, message: Some(message), is_primary: false }
    }
}

#[derive(Debug, Clone, Copy, PartialEq, Eq, Structural)]
pub enum SubLevel {
    Help,
    Note,
}

/// Rendered as a footer line under the snippet(s).
#[derive(Debug, Clone)]
pub struct SubDiagnostic {
    pub level: SubLevel,
    pub message: String,
}

pub struct SubDiagnosticView {
    pub level: SubLevel,
    pub message: Seq<char>,
}

impl View for SubDiagnostic {
    type V = SubDiagnosticView;

    open spec fn view(&self) -> SubDiagnosticView {
        SubDiagnosticView { level: self.level, message: self.message@ }
    }
}

#[derive(Debug, Clone)]
pub struct Diagnostic {
    pub rule: Rule,
    pub severity: Severity,
    pub message: String,
    pub annotations: Vec<Annotation>,
    pub subs: Vec<SubDiagnostic>,
}

pub struct DiagnosticView {
    pub rule: RuleId,
    /// The name the rule is shown by.
    pub rule_name: Seq<char>,
    pub severity: Severity,
    pub message: Seq<char>,
    pub annotations: Seq<AnnotationView>,
    pub subs: Seq<SubDiagnosticView>,
}

pub open spec fn annotations_view(s: Seq<Annotation>) -> Seq<AnnotationView> {
    s.map_values(|a: Annotation| a@)
}

pub open spec fn subs_view(s: Seq<SubDiagnostic>) -> Seq<SubDiagnosticView> {
    s.map_values(|d: SubDiagnostic| d@)
}

/// The diagnostics `a` come first in `b`, unchanged.
pub open spec fn diags_prefix(a: Seq<DiagnosticView>, b: Seq<DiagnosticView>) -> bool {
    a.len() <= b.len() && forall|i: int| 0 <= i < a.len() ==> #[trigger] b[i] == a[i]
}

pub open spec fn diagnostics_view(s: Seq<Diagnostic>) -> Seq<DiagnosticView> {
    s.map_values(|d: Diagnostic| d@)
}

impl View for Diagnostic {
    type V = DiagnosticView;

    open spec fn view(&self) -> DiagnosticView {
        DiagnosticView {
            rule: self.rule.id,
            rule_name: self.rule.name@,
            severity: self.severity,
            message: self.message@,
            annotations: annotations_view(self.annotations@),
            subs: subs_view(self.subs@),
        }
    }
}

/// The index of the primary annotation: the first annotation marked
/// primary, else the first annotation, else none.
pub open spec fn spec_primary_index(anns: Seq<AnnotationView>) -> Option<int> {
    if exists|i: int| 0 <= i < anns.len() && anns[i].is_primary {
        Some(
            choose|i: int|
                0 <= i < anns.len() && anns[i].is_primary && forall|j: int|
                    0 <= j < i ==> !anns[j].is_primary,
        )
    } else if anns.len() > 0 {
        Some(0)
    } else {
        None
    }
}

proof fn lemma_first_primary(anns: Seq<AnnotationView>, k: int)
    requires
        0 <= k < anns.len(),
        anns[k].is_primary,
    ensures
        exists|i: int| 0 <= i <= k && anns[i].is_primary && forall|j: int| 0 <= j < i ==> !anns[j].is_primary,
    decreases k,
{
    if exists|j: int| 0 <= j < k && anns[j].is_primary {
        let j = choose|j: int| 0 <= j < k && anns[j].is_primary;
        lemma_first_primary(anns, j);
    } else {
        assert(forall|j: int| 0 <= j < k ==> !anns[j].is_primary);
    }
}

/// The primary index, when there is one, is an index of `anns`.
pub proof fn lemma_primary_index_bounds(anns: Seq<AnnotationView>)
    ensures
        match spec_primary_index(anns) {
            Some(i) => 0 <= i < anns.len(),
            None => anns.len() == 0,
        },
{
    if exists|i: int| 0 <= i < anns.len() && anns[i].is_primary {
        let k = choose|i: int| 0 <= i < anns.len() && anns[i].is_primary;
        lemma_first_primary(anns, k);
    }
}

impl Diagnostic {
    /// The annotation a diagnostic is located at: the first primary one,
    /// else the first one.
    pub fn primary_annotation(&self) -> (r: Option<&Annotation>)
        ensures
            match spec_primary_index(self@.annotations) {
                Some(i) => r.is_some() && r.unwrap()@ == self@.annotations[i],
                None => r.is_none(),
            },
    {
        let n = self.annotations.len();
        let mut i: usize = 0;
        while i < n
            invariant
                n == self.annotations@.len(),
                i <= n,
                forall|j: int| 0 <= j < i ==> !self.annotations@[j].is_primary,
            decreases n - i,
        {
            if self.annotations[i].is_primary {
                proof {
                    let anns = self@.annotations;
                    assert(anns[i as int].is_primary);
                    let k = choose|k: int|
                        0 <= k < anns.len() && anns[k].is_primary && forall|j: int|
                            0 <= j < k ==> !anns[j].is_primary;
                    assert(k == i) by {
                        if k < i {
                            assert(!self.annotations@[k].is_primary);
                        }
                        if k > i {
                            assert(!anns[i as int].is_primary);
                        }
                    }
                }
                return Some(&self.annotations[i]);
            }
            i = i + 1;
        }
        if n > 0 {
            Some(&self.annotations[0])
        } else {
            None
        }
    }

    pub fn duplicate(&self) -> (d: Diagnostic)
        ensures
            d@ == self@,
            d.rule == self.rule,
    {
        let mut annotations: Vec<Annotation> = Vec::new();
        let mut i: usize = 0;
        while i < self.annotations.len()
            invariant
                i <= self.annotations@.len(),
                annotations_view(annotations@) == annotations_view(self.annotations@).take(i as int),
            decreases self.annotations@.len() - i,
        {
            let a = &self.annotations[i];
            let message = match &a.message {
                Some(m) => Some(m.clone()),
                None => None,
            };
            let copy = Annotation { span: a.span.duplicate(), message, is_primary: a.is_primary };
            assert(copy@ == self.annotations@[i as int]@);
            let ghost prev = annotations@;
            annotations.push(copy);
            assert(annotations_view(annotations@) =~= annotations_view(prev).push(copy@));
            assert(annotations_view(self.annotations@).take(i + 1) =~= annotations_view(
                self.annotations@,
            ).take(i as int).push(annotations_view(self.annotations@)[i as int]));
            i = i + 1;
            assert(annotations_view(annotations@) =~= annotations_view(self.annotations@).take(i as int));
        }
        let mut subs: Vec<SubDiagnostic> = Vec::new();
        let mut k: usize = 0;
        while k < self.subs.len()
            invariant
                k <= self.subs@.len(),
                subs_view(subs@) == subs_view(self.subs@).take(k as int),
            decreases self.subs@.len() - k,
        {
            let copy = SubDiagnostic { level: self.subs[k].level, message: self.subs[k].message.clone() };
            assert(copy@ == self.subs@[k as int]@);
            let ghost prev = subs@;
            subs.push(copy);
            assert(subs_view(subs@) =~= subs_view(prev).push(copy@));
            assert(subs_view(self.subs@).take(k + 1) =~= subs_view(self.subs@).take(k as int).push(
                subs_view(self.subs@)[k as int],
            ));
            k = k + 1;
            assert(subs_view(subs@) =~= subs_view(self.subs@).take(k as int));
        }
        assert(annotations_view(self.annotations@).take(self.annotations@.len() as int) =~= annotations_view(self.annotations@));
        assert(subs_view(self.subs@).take(self.subs@.len() as int) =~= subs_view(self.subs@));
        Diagnostic {
            rule: self.rule,
            severity: self.severity,
            message: self.message.clone(),
            annotations,
            subs,
        }
    }
}

/// The level a rule reports at for a step: `strict` is the ratchet that
/// promotes every warn-level rule to an error; other levels are kept.
pub open spec fn spec_effective_level(rule: Rule, strict: bool) -> Level {
    if strict && rule.default_level == Level::Warn {
        Level::Error
    } else {
        rule.default_level
    }
}

pub fn effective_level(rule: &Rule, strict: bool) -> (l: Level)
    ensures
        l == spec_effective_level(*rule, strict),
{
    if strict && rule.default_level == Level::Warn {
        Level::Error
    } else {
        rule.default_level
    }
}

/// The strictness ratchet only ever promotes: a strict step reports a rule
/// at its default level, except that warn-level rules become errors; a
/// rule's level under `strict` is never below its level without it.
pub proof fn lemma_strict_only_promotes(rule: Rule)
    ensures
        spec_effective_level(rule, false) == rule.default_level,
        spec_effective_level(rule, true) == (if rule.default_level == Level::Warn {
            Level::Error
        } else {
            rule.default_level
        }),
        spec_effective_level(rule, true) == Level::Ignore ==> rule.default_level == Level::Ignore,
        spec_effective_level(rule, false) == Level::Error ==> spec_effective_level(rule, true) == Level::Error,
        spec_effective_level(rule, false) == Level::Warn ==> spec_effective_level(rule, true) == Level::Error,
{
}

/// Collects diagnostics during a check run.
#[derive(Debug)]
pub struct CheckContext {
    diagnostics: Vec<Diagnostic>,
}

impl View for CheckContext {
    type V = Seq<DiagnosticView>;

    closed spec fn view(&self) -> Seq<DiagnosticView> {
        diagnostics_view(self.diagnostics@)
    }
}

/// The level a declared rule reports at for a step.
pub open spec fn spec_level_of(rule: RuleId, strict: bool) -> Level {
    if strict && spec_default_level(rule) == Level::Warn {
        Level::Error
    } else {
        spec_default_level(rule)
    }
}

/// The diagnostic a builder starts from: the rule at the effective level,
/// with an empty message and no annotations; none when the rule is ignored.
pub open spec fn spec_started(rule: RuleId, strict: bool) -> Option<DiagnosticView> {
    match spec_level_of(rule, strict) {
        Level::Ignore => None,
        Level::Warn => Some(
            DiagnosticView {
                rule,
                rule_name: spec_rule_name(rule),
                severity: Severity::Warning,
                message: Seq::empty(),
                annotations: Seq::empty(),
                subs: Seq::empty(),
            },
        ),
        Level::Error => Some(
            DiagnosticView {
                rule,
                rule_name: spec_rule_name(rule),
                severity: Severity::Error,
                message: Seq::empty(),
                annotations: Seq::empty(),
                subs: Seq::empty(),
            },
        ),
    }
}

/// The diagnostic a builder starts from, for any rule: the rule at its
/// effective level, with an empty message and no annotations; none when
/// the rule is ignored.
pub open spec fn spec_started_by(rule: Rule, strict: bool) -> Option<DiagnosticView> {
    let started = DiagnosticView {
        rule: rule.id,
        rule_name: rule.name@,
        severity: Severity::Error,
        message: Seq::empty(),
        annotations: Seq::empty(),
        subs: Seq::empty(),
    };
    match spec_effective_level(rule, strict) {
        Level::Ignore => None,
        Level::Warn => Some(DiagnosticView { severity: Severity::Warning, ..started }),
        Level::Error => Some(started),
    }
}

/// For a rule as the registry declares it, what a builder starts from
/// depends on the rule's identity alone.
pub proof fn lemma_started_declared(rule: Rule, strict: bool)
    requires
        rule.is_declared(),
    ensures
        spec_started_by(rule, strict) == spec_started(rule.id, strict),
{
}

impl CheckContext {
    pub fn new() -> (c: CheckContext)
        ensures
            c@ == Seq::<DiagnosticView>::empty(),
    {
        let c = CheckContext { diagnostics: Vec::new() };
        assert(c@ =~= Seq::<DiagnosticView>::empty());
        c
    }

    /// Start a diagnostic for `rule` at the effective level for a step;
    /// `None` means the rule is ignored at this site.
    pub fn report(&self, rule: &Rule, strict: bool) -> (b: Option<DiagnosticBuilder>)
        ensures
            match spec_started_by(*rule, strict) {
                None => b.is_none(),
                Some(d) => b.is_some() && b.unwrap()@ == d,
            },
            rule.is_declared() ==> match spec_started(rule.id, strict) {
                None => b.is_none(),
                Some(d) => b.is_some() && b.unwrap()@ == d,
            },
    {
        proof {
            if rule.is_declared() {
                lemma_started_declared(*rule, strict);
            }
        }
        let level = effective_level(rule, strict);
        let severity = match level {
            Level::Ignore => {
                return None;
            },
            Level::Warn => Severity::Warning,
            Level::Error => Severity::Error,
        };
        let b = DiagnosticBuilder {
            diagnostic: Diagnostic {
                rule: *rule,
                severity,
                message: String::new(),
                annotations: Vec::new(),
                subs: Vec::new(),
            },
        };
        assert(b@.annotations =~= Seq::<AnnotationView>::empty());
        assert(b@.subs =~= Seq::<SubDiagnosticView>::empty());
        Some(b)
    }

    /// Files a finished diagnostic.
    fn push(&mut self, diagnostic: Diagnostic)
        ensures
            final(self)@ == old(self)@.push(diagnostic@),
    {
        self.diagnostics.push(diagnostic);
        assert(self@ =~= old(self)@.push(diagnostic@));
    }

    pub fn extend(&mut self, other: CheckContext)
        ensures
            final(self)@ == old(self)@ + other@,
    {
        let mut other = other;
        let ghost a = self.diagnostics@;
        let ghost b = other.diagnostics@;
        self.diagnostics.append(&mut other.diagnostics);
        assert(self.diagnostics@ == a + b);
        assert(diagnostics_view(a + b) =~= diagnostics_view(a) + diagnostics_view(b));
    }

    pub fn into_diagnostics(self) -> (v: Vec<Diagnostic>)
        ensures
            diagnostics_view(v@) == self@,
    {
        self.diagnostics
    }

    pub fn diagnostics(&self) -> (v: &Vec<Diagnostic>)
        ensures
            diagnostics_view(v@) == self@,
    {
        &self.diagnostics
    }
}

/// One call on a [`DiagnosticBuilder`].
pub enum BuildStep {
    Message(Seq<char>),
    Primary(SpanView, Seq<char>),
    Secondary(SpanView, Seq<char>),
    Help(Seq<char>),
    Note(Seq<char>),
}

/// What one call makes of the diagnostic being built: a message replaces
/// the message, an annotation or a help or note is added after the others.
pub open spec fn build_step(b: DiagnosticView, s: BuildStep) -> DiagnosticView {
    match s {
        BuildStep::Message(m) => DiagnosticView { message: m, ..b },
        BuildStep::Primary(span, label) => DiagnosticView {
            annotations: b.annotations.push(AnnotationView { span, message: Some(label), is_primary: true }),
            ..b
        },
        BuildStep::Secondary(span, label) => DiagnosticView {
            annotations: b.annotations.push(AnnotationView { span, message: Some(label), is_primary: false }),
            ..b
        },
        BuildStep::Help(m) => DiagnosticView {
            subs: b.subs.push(SubDiagnosticView { level: SubLevel::Help, message: m }),
            ..b
        },
        BuildStep::Note(m) => DiagnosticView {
            subs: b.subs.push(SubDiagnosticView { level: SubLevel::Note, message: m }),
            ..b
        },
    }
}

/// The diagnostic after the calls `steps`, in order.
pub open spec fn build_all(b: DiagnosticView, steps: Seq<BuildStep>) -> DiagnosticView
    decreases steps.len(),
{
    if steps.len() == 0 {
        b
    } else {
        build_step(build_all(b, steps.drop_last()), steps.last())
    }
}

/// The annotations that the calls `steps` add, in call order.
pub open spec fn step_annotations(steps: Seq<BuildStep>) -> Seq<AnnotationView>
    decreases steps.len(),
{
    if steps.len() == 0 {
        Seq::empty()
    } else {
        step_annotations(steps.drop_last()) + match steps.last() {
            BuildStep::Primary(span, label) => seq![AnnotationView { span, message: Some(label), is_primary: true }],
            BuildStep::Secondary(span, label) => seq![AnnotationView { span, message: Some(label), is_primary: false }],
            _ => Seq::empty(),
        }
    }
}

/// The helps and notes that the calls `steps` add, in call order.
pub open spec fn step_subs(steps: Seq<BuildStep>) -> Seq<SubDiagnosticView>
    decreases steps.len(),
{
    if steps.len() == 0 {
        Seq::empty()
    } else {
        step_subs(steps.drop_last()) + match steps.last() {
            BuildStep::Help(m) => seq![SubDiagnosticView { level: SubLevel::Help, message: m }],
            BuildStep::Note(m) => seq![SubDiagnosticView { level: SubLevel::Note, message: m }],
            _ => Seq::empty(),
        }
    }
}

/// Whatever the order of the calls on a builder, the diagnostic keeps its
/// rule and severity, shows the annotations after those it had, in the
/// order they were added, and likewise its helps and notes.
pub proof fn lemma_build_keeps_call_order(b: DiagnosticView, steps: Seq<BuildStep>)
    ensures
        build_all(b, steps).rule == b.rule,
        build_all(b, steps).rule_name == b.rule_name,
        build_all(b, steps).severity == b.severity,
        build_all(b, steps).annotations == b.annotations + step_annotations(steps),
        build_all(b, steps).subs == b.subs + step_subs(steps),
    decreases steps.len(),
{
    if steps.len() == 0 {
        assert(b.annotations + Seq::<AnnotationView>::empty() =~= b.annotations);
        assert(b.subs + Seq::<SubDiagnosticView>::empty() =~= b.subs);
    } else {
        let prev = steps.drop_last();
        lemma_build_keeps_call_order(b, prev);
        let m = build_all(b, prev);
        match steps.last() {
            BuildStep::Primary(span, label) => {
                assert(m.annotations.push(AnnotationView { span, message: Some(label), is_primary: true })
                    =~= b.annotations + step_annotations(steps));
                assert(m.subs =~= b.subs + step_subs(steps));
            },
            BuildStep::Secondary(span, label) => {
                assert(m.annotations.push(AnnotationView { span, message: Some(label), is_primary: false })
                    =~= b.annotations + step_annotations(steps));
                assert(m.subs =~= b.subs + step_subs(steps));
            },
            BuildStep::Help(msg) => {
                assert(m.subs.push(SubDiagnosticView { level: SubLevel::Help, message: msg })
                    =~= b.subs + step_subs(steps));
                assert(m.annotations =~= b.annotations + step_annotations(steps));
            },
            BuildStep::Note(msg) => {
                assert(m.subs.push(SubDiagnosticView { level: SubLevel::Note, message: msg })
                    =~= b.subs + step_subs(steps));
                assert(m.annotations =~= b.annotations + step_annotations(steps));
            },
            BuildStep::Message(_) => {
                assert(m.subs =~= b.subs + step_subs(steps));
                assert(m.annotations =~= b.annotations + step_annotations(steps));
            },
        }
    }
}

/// Builds a diagnostic; [`DiagnosticBuilder::emit`] files it into a context.
pub struct DiagnosticBuilder {
    diagnostic: Diagnostic,
}

impl View for DiagnosticBuilder {
    type V = DiagnosticView;

    closed spec fn view(&self) -> DiagnosticView {
        self.diagnostic@
    }
}

impl DiagnosticBuilder {
    pub fn message(self, message: String) -> (b: DiagnosticBuilder)
        ensures
            b@ == build_step(self@, BuildStep::Message(message@)),
    {
        let mut d = self.diagnostic;
        d.message = message;
        DiagnosticBuilder { diagnostic: d }
    }

    pub fn primary(self, span: Span, label: String) -> (b: DiagnosticBuilder)
        ensures
            b@ == build_step(self@, BuildStep::Primary(span@, label@)),
    {
        let mut d = self.diagnostic;
        d.annotations.push(Annotation::primary(span, label));
        assert(d@.annotations =~= self@.annotations.push(
            AnnotationView { span: span@, message: Some(label@), is_primary: true },
        ));
        DiagnosticBuilder { diagnostic: d }
    }

    pub fn secondary(self, span: Span, label: String) -> (b: DiagnosticBuilder)
        ensures
            b@ == build_step(self@, BuildStep::Secondary(span@, label@)),
    {
        let mut d = self.diagnostic;
        d.annotations.push(Annotation::secondary(span, label));
        assert(d@.annotations =~= self@.annotations.push(
            AnnotationView { span: span@, message: Some(label@), is_primary: false },
        ));
        DiagnosticBuilder { diagnostic: d }
    }

    pub fn help(self, message: String) -> (b: DiagnosticBuilder)
        ensures
            b@ == build_step(self@, BuildStep::Help(message@)),
    {
        let mut d = self.diagnostic;
        d.subs.push(SubDiagnostic { level: SubLevel::Help, message });
        assert(d@.subs =~= self@.subs.push(SubDiagnosticView { level: SubLevel::Help, message: message@ }));
        DiagnosticBuilder { diagnostic: d }
    }

    pub fn note(self, message: String) -> (b: DiagnosticBuilder)
        ensures
            b@ == build_step(self@, BuildStep::Note(message@)),
    {
        let mut d = self.diagnostic;
        d.subs.push(SubDiagnostic { level: SubLevel::Note, message });
        assert(d@.subs =~= self@.subs.push(SubDiagnosticView { level: SubLevel::Note, message: message@ }));
        DiagnosticBuilder { diagnostic: d }
    }

    /// Files the diagnostic into `ctx`.
    pub fn emit(self, ctx: &mut CheckContext)
        ensures
            final(ctx)@ == old(ctx)@.push(self@),
    {
        ctx.push(self.diagnostic);
    }
}

} // verus!
