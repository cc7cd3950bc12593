//! Python analysis: from the IO-relevant syntax of a step, extract every
//! `riv_in`/`riv_out` call together with its schema symbol and artifact path.
//!
//! Resolution is name-level and local to one file: the schema is the
//! imported (or locally defined) class name attached to the call, qualified
//! by the module it was imported from.
//!
//! The syntax arrives as [`PyEvent`]s: the import statements, class
//! definitions and calls of a module, in the order a depth-first visit of
//! its syntax tree meets them.

use vstd::prelude::*;

use crate::diagnostic::{CheckContext, Span, SpanView};
use crate::facts::{queries_view, Facts, Query, QueryView, ScriptLoad};
use crate::paths::{file_stem, spec_file_stem};
use crate::pipeline::{make_diag, primary_at, push_opt};
use crate::rules::{invalid_syntax, RuleId};
use crate::text::{owned, push_char, push_str, str_eq, TextRange};

verus! {

/// The expression shapes the scan distinguishes.
pub enum PyExpr {
    /// A bare identifier.
    Name { id: String, range: TextRange },
    /// `value.attr`.
    Attribute { value: Box<PyExpr>, attr: String, range: TextRange },
    /// A plain string literal, with its value.
    StringLiteral { value: String, range: TextRange },
    /// Any other expression.
    Other { range: TextRange },
}

/// `name as asname` in an import.
pub struct PyAlias {
    pub name: String,
    pub asname: Option<String>,
}

/// One IO-relevant piece of a module's syntax.
pub enum PyEvent {
    /// `from module import names` (`module` is absent for `from . import x`).
    ImportFrom { module: Option<String>, names: Vec<PyAlias> },
    /// `import names`.
    Import { names: Vec<PyAlias> },
    /// `class name(bases): ...`.
    ClassDef { name: String, bases: Vec<PyExpr> },
    /// A call `func(args...)` spanning `range`.
    Call { func: PyExpr, args: Vec<PyExpr>, range: TextRange },
}

/// A Python syntax error: the parser's message and where it points.
pub struct SyntaxError {
    pub message: String,
    pub range: TextRange,
}

impl PyExpr {
    pub open spec fn spec_range(&self) -> TextRange {
        match self {
            PyExpr::Name { range, .. } => *range,
            PyExpr::Attribute { range, .. } => *range,
            PyExpr::StringLiteral { range, .. } => *range,
            PyExpr::Other { range } => *range,
        }
    }

    pub fn range(&self) -> (r: TextRange)
        ensures
            r == self.spec_range(),
    {
        match self {
            PyExpr::Name { range, .. } => *range,
            PyExpr::Attribute { range, .. } => *range,
            PyExpr::StringLiteral { range, .. } => *range,
            PyExpr::Other { range } => *range,
        }
    }
}

#[derive(Debug, Clone, Copy, PartialEq, Eq, Structural)]
pub enum Direction {
    In,
    Out,
}

impl Direction {
    /// The riv function that moves data in this direction.
    pub fn function_name(self) -> (s: &'static str)
        ensures
            self == Direction::In ==> s@ == "riv_in"@,
            self == Direction::Out ==> s@ == "riv_out"@,
    {
        match self {
            Direction::In => "riv_in",
            Direction::Out => "riv_out",
        }
    }
}

#[derive(Debug, Clone, PartialEq, Eq)]
pub enum SchemaRef {
    /// Bare `riv_in(...)` / `riv_out(...)`: the gradual-typing warning.
    Unannotated,
    /// `Untyped.riv_in(...)`: the explicit escape hatch; emits nothing.
    Untyped,
    /// `UsersDf.riv_in(...)`: qualified symbol, e.g. `schemas.UsersDf`.
    Named(String),
}

pub enum SchemaRefView {
    Unannotated,
    Untyped,
    Named(Seq<char>),
}

impl View for SchemaRef {
    type V = SchemaRefView;

    open spec fn view(&self) -> SchemaRefView {
        match self {
            SchemaRef::Unannotated => SchemaRefView::Unannotated,
            SchemaRef::Untyped => SchemaRefView::Untyped,
            SchemaRef::Named(s) => SchemaRefView::Named(s@),
        }
    }
}

/// One `riv_in`/`riv_out` call found in a step.
#[derive(Debug, Clone)]
pub struct IoCall {
    pub direction: Direction,
    pub schema: SchemaRef,
    /// The artifact path, when it is a plain string literal. Dynamic paths
    /// are invisible to the checker.
    pub path: Option<String>,
    pub call_range: TextRange,
    /// Range of the schema expression (`UsersDf` in `UsersDf.riv_in(...)`).
    pub schema_range: Option<TextRange>,
}

pub struct IoCallView {
    pub direction: Direction,
    pub schema: SchemaRefView,
    pub path: Option<Seq<char>>,
    pub call_range: TextRange,
    pub schema_range: Option<TextRange>,
}

impl View for IoCall {
    type V = IoCallView;

    open spec fn view(&self) -> IoCallView {
        IoCallView {
            direction: self.direction,
            schema: self.schema@,
            path: match self.path {
                Some(p) => Some(p@),
                None => None,
            },
            call_range: self.call_range,
            schema_range: self.schema_range,
        }
    }
}

pub open spec fn calls_view(s: Seq<IoCall>) -> Seq<IoCallView> {
    s.map_values(|c: IoCall| c@)
}

/// A scanned Python step: its text and the IO calls it makes, in order.
#[derive(Debug)]
pub struct ScannedFile {
    pub path: String,
    pub source: String,
    pub calls: Vec<IoCall>,
}

/// What a name in a step is bound to.
pub enum Binding {
    /// `from riv import riv_in` (possibly aliased).
    RivFunc(Direction),
    /// `import riv` (possibly aliased).
    RivModule,
    /// `from riv import Untyped`.
    Untyped,
    /// `from riv import Schema`.
    SchemaBase,
    /// `from M import N` -> qualified `M.N`.
    Imported(String),
    /// `class N(Schema)` in this file -> qualified `<stem>.N`.
    LocalClass(String),
}

pub enum BindingView {
    RivFunc(Direction),
    RivModule,
    Untyped,
    SchemaBase,
    Imported(Seq<char>),
    LocalClass(Seq<char>),
}

impl View for Binding {
    type V = BindingView;

    open spec fn view(&self) -> BindingView {
        match self {
            Binding::RivFunc(d) => BindingView::RivFunc(*d),
            Binding::RivModule => BindingView::RivModule,
            Binding::Untyped => BindingView::Untyped,
            Binding::SchemaBase => BindingView::SchemaBase,
            Binding::Imported(q) => BindingView::Imported(q@),
            Binding::LocalClass(q) => BindingView::LocalClass(q@),
        }
    }
}

/// The scan's state: name bindings in the order they were made (a later
/// binding of a name shadows earlier ones) and the calls found so far.
pub struct ScanState {
    pub bindings: Seq<(Seq<char>, BindingView)>,
    pub calls: Seq<IoCallView>,
}

/// What `name` is bound to: its most recent binding.
pub open spec fn lookup(bindings: Seq<(Seq<char>, BindingView)>, name: Seq<char>) -> Option<BindingView>
    decreases bindings.len(),
{
    if bindings.len() == 0 {
        None
    } else if bindings.last().0 == name {
        Some(bindings.last().1)
    } else {
        lookup(bindings.drop_last(), name)
    }
}

pub open spec fn bind(st: ScanState, name: Seq<char>, b: BindingView) -> ScanState {
    ScanState { bindings: st.bindings.push((name, b)), ..st }
}

/// The binding a member of the `riv` module gives.
pub open spec fn riv_member(member: Seq<char>) -> Option<BindingView> {
    if member == "riv_in"@ {
        Some(BindingView::RivFunc(Direction::In))
    } else if member == "riv_out"@ {
        Some(BindingView::RivFunc(Direction::Out))
    } else if member == "Untyped"@ {
        Some(BindingView::Untyped)
    } else if member == "Schema"@ {
        Some(BindingView::SchemaBase)
    } else {
        None
    }
}

pub open spec fn bind_riv_member(st: ScanState, member: Seq<char>, bound_as: Seq<char>) -> ScanState {
    match riv_member(member) {
        Some(b) => bind(st, bound_as, b),
        None => st,
    }
}

pub open spec fn bound_name(a: PyAlias) -> Seq<char> {
    match a.asname {
        Some(n) => n@,
        None => a.name@,
    }
}

/// `from riv import *` binds every public member of `riv` under its own name.
pub open spec fn bind_riv_star(st: ScanState) -> ScanState {
    bind_riv_member(
        bind_riv_member(
            bind_riv_member(bind_riv_member(st, "riv_in"@, "riv_in"@), "riv_out"@, "riv_out"@),
            "Untyped"@,
            "Untyped"@,
        ),
        "Schema"@,
        "Schema"@,
    )
}

/// The effect of one alias of `from module import ...`.
pub open spec fn import_from_alias(st: ScanState, module: Seq<char>, a: PyAlias) -> ScanState {
    if module == "riv"@ {
        if a.name@ == "*"@ {
            bind_riv_star(st)
        } else {
            bind_riv_member(st, a.name@, bound_name(a))
        }
    } else if a.name@ != "*"@ {
        bind(st, bound_name(a), BindingView::Imported(module + seq!['.'] + a.name@))
    } else {
        st
    }
}

pub open spec fn import_from_aliases(st: ScanState, module: Seq<char>, names: Seq<PyAlias>) -> ScanState
    decreases names.len(),
{
    if names.len() == 0 {
        st
    } else {
        import_from_alias(import_from_aliases(st, module, names.drop_last()), module, names.last())
    }
}

/// The effect of one alias of `import ...`: only `riv` itself binds.
pub open spec fn import_alias(st: ScanState, a: PyAlias) -> ScanState {
    if a.name@ == "riv"@ {
        bind(
            st,
            match a.asname {
                Some(n) => n@,
                None => "riv"@,
            },
            BindingView::RivModule,
        )
    } else {
        st
    }
}

pub open spec fn import_aliases(st: ScanState, names: Seq<PyAlias>) -> ScanState
    decreases names.len(),
{
    if names.len() == 0 {
        st
    } else {
        import_alias(import_aliases(st, names.drop_last()), names.last())
    }
}

/// Whether a class base names the riv schema base (`Schema`, `Untyped`, a
/// local schema class, or `riv.Schema` / `riv.Untyped`).
pub open spec fn spec_is_schema_base(bindings: Seq<(Seq<char>, BindingView)>, base: PyExpr) -> bool {
    match base {
        PyExpr::Name { id, .. } => match lookup(bindings, id@) {
            Some(BindingView::SchemaBase) => true,
            Some(BindingView::Untyped) => true,
            Some(BindingView::LocalClass(_)) => true,
            _ => false,
        },
        PyExpr::Attribute { value, attr, .. } => match *value {
            PyExpr::Name { id, .. } => lookup(bindings, id@) == Some(BindingView::RivModule) && (
            attr@ == "Schema"@ || attr@ == "Untyped"@),
            _ => false,
        },
        _ => false,
    }
}

pub open spec fn class_def(st: ScanState, stem: Seq<char>, name: Seq<char>, bases: Seq<PyExpr>) -> ScanState {
    if exists|i: int| 0 <= i < bases.len() && spec_is_schema_base(st.bindings, #[trigger] bases[i]) {
        bind(st, name, BindingView::LocalClass(stem + seq!['.'] + name))
    } else {
        st
    }
}

/// `a.b.c` rendered from a Name/Attribute chain.
pub open spec fn spec_dotted_name(e: PyExpr) -> Option<Seq<char>>
    decreases e,
{
    match e {
        PyExpr::Name { id, .. } => Some(id@),
        PyExpr::Attribute { value, attr, .. } => match spec_dotted_name(*value) {
            Some(base) => Some(base + seq!['.'] + attr@),
            None => None,
        },
        _ => None,
    }
}

pub open spec fn is_riv_module_name(bindings: Seq<(Seq<char>, BindingView)>, e: PyExpr) -> bool {
    match e {
        PyExpr::Name { id, .. } => lookup(bindings, id@) == Some(BindingView::RivModule),
        _ => false,
    }
}

/// The schema the receiver of `<receiver>.riv_in(...)` names, or none when
/// the receiver is the riv module itself or no name at all.
pub open spec fn spec_resolve_receiver(bindings: Seq<(Seq<char>, BindingView)>, receiver: PyExpr) -> Option<
    SchemaRefView,
> {
    match receiver {
        PyExpr::Name { id, .. } => match lookup(bindings, id@) {
            Some(BindingView::RivModule) => None,
            Some(BindingView::Untyped) => Some(SchemaRefView::Untyped),
            Some(BindingView::Imported(q)) => Some(SchemaRefView::Named(q)),
            Some(BindingView::LocalClass(q)) => Some(SchemaRefView::Named(q)),
            _ => Some(SchemaRefView::Named(id@)),
        },
        PyExpr::Attribute { value, attr, .. } => {
            if is_riv_module_name(bindings, *value) && attr@ == "Untyped"@ {
                Some(SchemaRefView::Untyped)
            } else {
                match spec_dotted_name(receiver) {
                    Some(q) => Some(SchemaRefView::Named(q)),
                    None => None,
                }
            }
        },
        _ => None,
    }
}

/// Direction, schema and schema range of a call to riv, when it is one.
pub open spec fn spec_call_target(bindings: Seq<(Seq<char>, BindingView)>, func: PyExpr) -> Option<
    (Direction, SchemaRefView, Option<TextRange>),
> {
    match func {
        PyExpr::Name { id, .. } => match lookup(bindings, id@) {
            Some(BindingView::RivFunc(d)) => Some((d, SchemaRefView::Unannotated, None)),
            _ => None,
        },
        PyExpr::Attribute { value, attr, .. } => {
            if attr@ == "riv_in"@ || attr@ == "riv_out"@ {
                let d = if attr@ == "riv_in"@ {
                    Direction::In
                } else {
                    Direction::Out
                };
                match spec_resolve_receiver(bindings, *value) {
                    Some(schema) => Some((d, schema, Some(value.spec_range()))),
                    None => if is_riv_module_name(bindings, *value) {
                        Some((d, SchemaRefView::Unannotated, None))
                    } else {
                        None
                    },
                }
            } else {
                None
            }
        },
        _ => None,
    }
}

/// The artifact path of a call: its argument at `index` when that is a
/// string literal.
pub open spec fn spec_literal_arg(args: Seq<PyExpr>, index: int) -> Option<Seq<char>> {
    if 0 <= index < args.len() {
        match args[index] {
            PyExpr::StringLiteral { value, .. } => Some(value@),
            _ => None,
        }
    } else {
        None
    }
}

pub open spec fn path_index(d: Direction) -> int {
    match d {
        Direction::In => 0,
        Direction::Out => 1,
    }
}

pub open spec fn call_event(st: ScanState, func: PyExpr, args: Seq<PyExpr>, range: TextRange) -> ScanState {
    match spec_call_target(st.bindings, func) {
        Some((d, schema, schema_range)) => ScanState {
            calls: st.calls.push(
                IoCallView {
                    direction: d,
                    schema,
                    path: spec_literal_arg(args, path_index(d)),
                    call_range: range,
                    schema_range,
                },
            ),
            ..st
        },
        None => st,
    }
}

/// The effect of one event on the scan.
pub open spec fn scan_event(st: ScanState, stem: Seq<char>, e: PyEvent) -> ScanState {
    match e {
        PyEvent::ImportFrom { module, names } => match module {
            Some(m) => import_from_aliases(st, m@, names@),
            None => st,
        },
        PyEvent::Import { names } => import_aliases(st, names@),
        PyEvent::ClassDef { name, bases } => class_def(st, stem, name@, bases@),
        PyEvent::Call { func, args, range } => call_event(st, func, args@, range),
    }
}

pub open spec fn scan_events(stem: Seq<char>, events: Seq<PyEvent>) -> ScanState
    decreases events.len(),
{
    if events.len() == 0 {
        ScanState { bindings: Seq::empty(), calls: Seq::empty() }
    } else {
        scan_event(scan_events(stem, events.drop_last()), stem, events.last())
    }
}

/// The IO calls a module with these events makes, in order.
pub open spec fn spec_scan_calls(stem: Seq<char>, events: Seq<PyEvent>) -> Seq<IoCallView> {
    scan_events(stem, events).calls
}

/// `import riv`, or `import riv as m`, binds its name to the riv module.
pub proof fn lemma_import_riv_binds_module(st: ScanState, a: PyAlias)
    requires
        a.name@ == "riv"@,
    ensures
        lookup(
            import_alias(st, a).bindings,
            match a.asname {
                Some(n) => n@,
                None => "riv"@,
            },
        ) == Some(BindingView::RivModule),
{
}

/// A call through the riv module, `m.riv_in(...)` or `m.riv_out(...)` with
/// `m` bound to `riv`, is found: it is recorded with its direction, no
/// schema and no schema range, and its literal path argument (the first
/// argument of `riv_in`, the second of `riv_out`).
pub proof fn lemma_module_call_is_found(st: ScanState, func: PyExpr, args: Seq<PyExpr>, range: TextRange)
    requires
        func matches PyExpr::Attribute { value, attr, .. } && (attr@ == "riv_in"@ || attr@ == "riv_out"@) && (
        *value matches PyExpr::Name { id, .. } && lookup(st.bindings, id@) == Some(BindingView::RivModule)),
    ensures
        ({
            let d = if func->Attribute_attr@ == "riv_in"@ {
                Direction::In
            } else {
                Direction::Out
            };
            let index: int = if d == Direction::In {
                0
            } else {
                1
            };
            call_event(st, func, args, range) == ScanState {
                calls: st.calls.push(
                    IoCallView {
                        direction: d,
                        schema: SchemaRefView::Unannotated,
                        path: if 0 <= index < args.len() {
                            match args[index] {
                                PyExpr::StringLiteral { value, .. } => Some(value@),
                                _ => None,
                            }
                        } else {
                            None
                        },
                        call_range: range,
                        schema_range: None,
                    },
                ),
                ..st
            }
        }),
{
}

/// The path a call names: its argument at `index` when that is a string
/// literal.
pub open spec fn literal_at(args: Seq<PyExpr>, index: int) -> Option<Seq<char>> {
    if 0 <= index < args.len() {
        match args[index] {
            PyExpr::StringLiteral { value, .. } => Some(value@),
            _ => None,
        }
    } else {
        None
    }
}

/// A call of a name bound to `riv_in` or `riv_out` (`from riv import
/// riv_in`, possibly aliased) is recorded with that direction, no schema
/// and its literal path; a call of a name bound to anything else is not.
pub proof fn lemma_function_call_is_found(st: ScanState, func: PyExpr, args: Seq<PyExpr>, range: TextRange)
    requires
        func matches PyExpr::Name { .. },
    ensures
        match lookup(st.bindings, func->Name_id@) {
            Some(BindingView::RivFunc(d)) => call_event(st, func, args, range) == ScanState {
                calls: st.calls.push(
                    IoCallView {
                        direction: d,
                        schema: SchemaRefView::Unannotated,
                        path: literal_at(
                            args,
                            if d == Direction::In {
                                0
                            } else {
                                1
                            },
                        ),
                        call_range: range,
                        schema_range: None,
                    },
                ),
                ..st
            },
            _ => call_event(st, func, args, range) == st,
        },
{
}

/// What a receiver names: an imported or locally defined schema by its
/// qualified name, `Untyped` (bare or as `riv.Untyped`) as untyped, the
/// riv module as no schema, and an unbound name as itself.
pub proof fn lemma_receiver_names(bindings: Seq<(Seq<char>, BindingView)>, receiver: PyExpr)
    ensures
        receiver matches PyExpr::Name { id, .. } ==> spec_resolve_receiver(bindings, receiver) == match lookup(
            bindings,
            id@,
        ) {
            Some(BindingView::Imported(q)) => Some(SchemaRefView::Named(q)),
            Some(BindingView::LocalClass(q)) => Some(SchemaRefView::Named(q)),
            Some(BindingView::Untyped) => Some(SchemaRefView::Untyped),
            Some(BindingView::RivModule) => None,
            _ => Some(SchemaRefView::Named(id@)),
        },
        receiver matches PyExpr::Attribute { value, attr, .. } && attr@ == "Untyped"@ && (*value matches PyExpr::Name {
            id,
            ..
        } && lookup(bindings, id@) == Some(BindingView::RivModule)) ==> spec_resolve_receiver(bindings, receiver)
            == Some(SchemaRefView::Untyped),
        receiver matches PyExpr::StringLiteral { .. } ==> spec_resolve_receiver(bindings, receiver) is None,
        receiver matches PyExpr::Other { .. } ==> spec_resolve_receiver(bindings, receiver) is None,
{
}

/// A call `R.riv_in(...)` or `R.riv_out(...)` whose receiver `R` names a
/// schema is recorded with that schema, the receiver's range as the schema
/// range, and the literal path.
pub proof fn lemma_schema_call_is_found(st: ScanState, func: PyExpr, args: Seq<PyExpr>, range: TextRange)
    requires
        func matches PyExpr::Attribute { value, attr, .. } && (attr@ == "riv_in"@ || attr@ == "riv_out"@)
            && spec_resolve_receiver(st.bindings, *value) is Some,
    ensures
        ({
            let d = if func->Attribute_attr@ == "riv_in"@ {
                Direction::In
            } else {
                Direction::Out
            };
            call_event(st, func, args, range) == ScanState {
                calls: st.calls.push(
                    IoCallView {
                        direction: d,
                        schema: spec_resolve_receiver(st.bindings, *func->Attribute_value)->Some_0,
                        path: literal_at(
                            args,
                            if d == Direction::In {
                                0
                            } else {
                                1
                            },
                        ),
                        call_range: range,
                        schema_range: Some(func->Attribute_value.spec_range()),
                    },
                ),
                ..st
            }
        }),
{
}

/// A dotted receiver `a.b.C` other than `riv.Untyped` names the schema
/// spelled by the whole dotted name, every part joined by `.`.
pub proof fn lemma_dotted_receiver_names_whole_path(bindings: Seq<(Seq<char>, BindingView)>, receiver: PyExpr)
    requires
        receiver matches PyExpr::Attribute { value, attr, .. } && !(is_riv_module_name(bindings, *value) && attr@
            == "Untyped"@),
        spec_dotted_name(receiver) is Some,
    ensures
        spec_resolve_receiver(bindings, receiver) == Some(SchemaRefView::Named(spec_dotted_name(receiver)->Some_0)),
        spec_dotted_name(receiver)->Some_0 == spec_dotted_name(*receiver->Attribute_value)->Some_0 + seq!['.']
            + receiver->Attribute_attr@,
{
}

/// A module-qualified receiver `m.N` names the same schema as `N` after
/// `from m import N`: both are `m.N`.
pub proof fn lemma_qualified_and_imported_agree(
    st: ScanState,
    module: Seq<char>,
    a: PyAlias,
    imported: PyExpr,
    qualified: PyExpr,
)
    requires
        module != "riv"@,
        a.name@ != "*"@,
        a.asname is None,
        imported matches PyExpr::Name { id, .. } && id@ == a.name@,
        qualified matches PyExpr::Attribute { value, attr, .. } && attr@ == a.name@ && (*value matches PyExpr::Name {
            id,
            ..
        } && id@ == module && lookup(import_from_alias(st, module, a).bindings, id@) != Some(BindingView::RivModule)),
    ensures
        spec_resolve_receiver(import_from_alias(st, module, a).bindings, imported) == Some(
            SchemaRefView::Named(module + seq!['.'] + a.name@),
        ),
        spec_resolve_receiver(import_from_alias(st, module, a).bindings, qualified) == Some(
            SchemaRefView::Named(module + seq!['.'] + a.name@),
        ),
{
    reveal_with_fuel(spec_dotted_name, 2);
}

struct ScanVisitor {
    module_stem: String,
    bindings: Vec<(String, Binding)>,
    calls: Vec<IoCall>,
}

pub open spec fn bindings_view(s: Seq<(String, Binding)>) -> Seq<(Seq<char>, BindingView)> {
    s.map_values(|e: (String, Binding)| (e.0@, e.1@))
}

impl ScanVisitor {
    spec fn state(&self) -> ScanState {
        ScanState { bindings: bindings_view(self.bindings@), calls: calls_view(self.calls@) }
    }

    fn lookup(&self, name: &str) -> (r: Option<&Binding>)
        ensures
            match lookup(bindings_view(self.bindings@), name@) {
                None => r.is_none(),
                Some(b) => r.is_some() && r.unwrap()@ == b,
            },
    {
        let mut i: usize = self.bindings.len();
        assert(bindings_view(self.bindings@).take(i as int) =~= bindings_view(self.bindings@));
        while i > 0
            invariant
                i <= self.bindings@.len(),
                lookup(bindings_view(self.bindings@), name@) == lookup(
                    bindings_view(self.bindings@).take(i as int),
                    name@,
                ),
            decreases i,
        {
            let ghost t = bindings_view(self.bindings@).take(i as int);
            assert(t.drop_last() =~= bindings_view(self.bindings@).take(i - 1));
            assert(t.last() == (self.bindings@[i - 1].0@, self.bindings@[i - 1].1@));
            if str_eq(self.bindings[i - 1].0.as_str(), name) {
                return Some(&self.bindings[i - 1].1);
            }
            i = i - 1;
        }
        None
    }

    fn insert(&mut self, name: String, b: Binding)
        ensures
            final(self).state() == bind(old(self).state(), name@, b@),
            final(self).module_stem == old(self).module_stem,
    {
        let ghost e = (name@, b@);
        self.bindings.push((name, b));
        assert(bindings_view(self.bindings@) =~= bindings_view(old(self).bindings@).push(e));
    }

    fn bind_riv_member(&mut self, member: &str, bound_as: &str)
        ensures
            final(self).state() == bind_riv_member(old(self).state(), member@, bound_as@),
            final(self).module_stem == old(self).module_stem,
    {
        let binding = if str_eq(member, "riv_in") {
            Binding::RivFunc(Direction::In)
        } else if str_eq(member, "riv_out") {
            Binding::RivFunc(Direction::Out)
        } else if str_eq(member, "Untyped") {
            Binding::Untyped
        } else if str_eq(member, "Schema") {
            Binding::SchemaBase
        } else {
            return;
        };
        self.insert(owned(bound_as), binding);
    }

    fn record_import_from(&mut self, module: &Option<String>, names: &Vec<PyAlias>)
        ensures
            final(self).state() == (match *module {
                Some(m) => import_from_aliases(old(self).state(), m@, names@),
                None => old(self).state(),
            }),
            final(self).module_stem == old(self).module_stem,
    {
        let module = match module {
            Some(m) => m,
            None => {
                return;
            },
        };
        let is_riv = str_eq(module.as_str(), "riv");
        let mut i: usize = 0;
        assert(names@.take(0) =~= Seq::<PyAlias>::empty());
        while i < names.len()
            invariant
                i <= names@.len(),
                is_riv == (module@ == "riv"@),
                self.state() == import_from_aliases(old(self).state(), module@, names@.take(i as int)),
                self.module_stem == old(self).module_stem,
            decreases names@.len() - i,
        {
            let alias = &names[i];
            assert(names@.take(i + 1).drop_last() =~= names@.take(i as int));
            let name = alias.name.as_str();
            let bound_as = match &alias.asname {
                Some(n) => n.as_str(),
                None => name,
            };
            assert(bound_as@ == bound_name(names@[i as int]));
            let ghost prev = self.state();
            if is_riv {
                if str_eq(name, "*") {
                    self.bind_riv_member("riv_in", "riv_in");
                    self.bind_riv_member("riv_out", "riv_out");
                    self.bind_riv_member("Untyped", "Untyped");
                    self.bind_riv_member("Schema", "Schema");
                } else {
                    self.bind_riv_member(name, bound_as);
                }
            } else if !str_eq(name, "*") {
                let mut q = module.clone();
                push_char(&mut q, '.');
                push_str(&mut q, name);
                assert(q@ =~= module@ + seq!['.'] + name@);
                self.insert(owned(bound_as), Binding::Imported(q));
            }
            assert(self.state() == import_from_alias(prev, module@, names@[i as int]));
            i = i + 1;
        }
        assert(names@.take(names@.len() as int) =~= names@);
    }

    fn record_import(&mut self, names: &Vec<PyAlias>)
        ensures
            final(self).state() == import_aliases(old(self).state(), names@),
            final(self).module_stem == old(self).module_stem,
    {
        let mut i: usize = 0;
        assert(names@.take(0) =~= Seq::<PyAlias>::empty());
        while i < names.len()
            invariant
                i <= names@.len(),
                self.state() == import_aliases(old(self).state(), names@.take(i as int)),
                self.module_stem == old(self).module_stem,
            decreases names@.len() - i,
        {
            let alias = &names[i];
            assert(names@.take(i + 1).drop_last() =~= names@.take(i as int));
            if str_eq(alias.name.as_str(), "riv") {
                let bound_as = match &alias.asname {
                    Some(n) => n.clone(),
                    None => owned("riv"),
                };
                self.insert(bound_as, Binding::RivModule);
            }
            i = i + 1;
        }
        assert(names@.take(names@.len() as int) =~= names@);
    }

    fn is_riv_module_name(&self, e: &PyExpr) -> (r: bool)
        ensures
            r == is_riv_module_name(self.state().bindings, *e),
    {
        match e {
            PyExpr::Name { id, .. } => match self.lookup(id.as_str()) {
                Some(Binding::RivModule) => true,
                _ => false,
            },
            _ => false,
        }
    }

    fn is_schema_base(&self, base: &PyExpr) -> (r: bool)
        ensures
            r == spec_is_schema_base(self.state().bindings, *base),
    {
        match base {
            PyExpr::Name { id, .. } => match self.lookup(id.as_str()) {
                Some(Binding::SchemaBase) => true,
                Some(Binding::Untyped) => true,
                Some(Binding::LocalClass(_)) => true,
                _ => false,
            },
            PyExpr::Attribute { value, attr, .. } => {
                self.is_riv_module_name(&**value) && (str_eq(attr.as_str(), "Schema") || str_eq(
                    attr.as_str(),
                    "Untyped",
                ))
            },
            _ => false,
        }
    }

    fn record_class_def(&mut self, name: &String, bases: &Vec<PyExpr>)
        ensures
            final(self).state() == class_def(old(self).state(), old(self).module_stem@, name@, bases@),
            final(self).module_stem == old(self).module_stem,
    {
        let mut is_schema = false;
        let mut i: usize = 0;
        while i < bases.len()
            invariant
                i <= bases@.len(),
                self.state() == old(self).state(),
                self.module_stem == old(self).module_stem,
                is_schema == exists|j: int|
                    0 <= j < i && spec_is_schema_base(self.state().bindings, #[trigger] bases@[j]),
            decreases bases@.len() - i,
        {
            if self.is_schema_base(&bases[i]) {
                is_schema = true;
            }
            i = i + 1;
        }
        if is_schema {
            let mut q = self.module_stem.clone();
            push_char(&mut q, '.');
            push_str(&mut q, name.as_str());
            assert(q@ =~= old(self).module_stem@ + seq!['.'] + name@);
            self.insert(name.clone(), Binding::LocalClass(q));
        }
    }

    fn resolve_receiver(&self, receiver: &PyExpr) -> (r: Option<SchemaRef>)
        ensures
            match spec_resolve_receiver(self.state().bindings, *receiver) {
                None => r.is_none(),
                Some(s) => r.is_some() && r.unwrap()@ == s,
            },
    {
        match receiver {
            PyExpr::Name { id, .. } => match self.lookup(id.as_str()) {
                Some(Binding::RivModule) => None,
                Some(Binding::Untyped) => Some(SchemaRef::Untyped),
                Some(Binding::Imported(q)) => Some(SchemaRef::Named(q.clone())),
                Some(Binding::LocalClass(q)) => Some(SchemaRef::Named(q.clone())),
                _ => Some(SchemaRef::Named(id.clone())),
            },
            PyExpr::Attribute { value, attr, .. } => {
                if self.is_riv_module_name(&**value) && str_eq(attr.as_str(), "Untyped") {
                    return Some(SchemaRef::Untyped);
                }
                match dotted_name(receiver) {
                    Some(q) => Some(SchemaRef::Named(q)),
                    None => None,
                }
            },
            _ => None,
        }
    }

    fn call_target(&self, func: &PyExpr) -> (r: Option<(Direction, SchemaRef, Option<TextRange>)>)
        ensures
            match spec_call_target(self.state().bindings, *func) {
                None => r.is_none(),
                Some(t) => r.is_some() && r.unwrap().0 == t.0 && r.unwrap().1@ == t.1 && r.unwrap().2
                    == t.2,
            },
    {
        match func {
            PyExpr::Name { id, .. } => match self.lookup(id.as_str()) {
                Some(Binding::RivFunc(d)) => Some((*d, SchemaRef::Unannotated, None)),
                _ => None,
            },
            PyExpr::Attribute { value, attr, .. } => {
                let d = if str_eq(attr.as_str(), "riv_in") {
                    Direction::In
                } else if str_eq(attr.as_str(), "riv_out") {
                    Direction::Out
                } else {
                    return None;
                };
                match self.resolve_receiver(&**value) {
                    Some(schema) => Some((d, schema, Some(value.range()))),
                    None => if self.is_riv_module_name(&**value) {
                        Some((d, SchemaRef::Unannotated, None))
                    } else {
                        None
                    },
                }
            },
            _ => None,
        }
    }

    fn record_call(&mut self, func: &PyExpr, args: &Vec<PyExpr>, range: TextRange)
        ensures
            final(self).state() == call_event(old(self).state(), *func, args@, range),
            final(self).module_stem == old(self).module_stem,
    {
        let (direction, schema, schema_range) = match self.call_target(func) {
            Some(t) => t,
            None => {
                return;
            },
        };
        let index: usize = match direction {
            Direction::In => 0,
            Direction::Out => 1,
        };
        let path = if index < args.len() {
            match &args[index] {
                PyExpr::StringLiteral { value, .. } => Some(value.clone()),
                _ => None,
            }
        } else {
            None
        };
        let call = IoCall { direction, schema, path, call_range: range, schema_range };
        let ghost cv = call@;
        self.calls.push(call);
        assert(calls_view(self.calls@) =~= calls_view(old(self).calls@).push(cv));
    }

    fn visit(&mut self, e: &PyEvent)
        ensures
            final(self).state() == scan_event(old(self).state(), old(self).module_stem@, *e),
            final(self).module_stem == old(self).module_stem,
    {
        match e {
            PyEvent::ImportFrom { module, names } => self.record_import_from(module, names),
            PyEvent::Import { names } => self.record_import(names),
            PyEvent::ClassDef { name, bases } => self.record_class_def(name, bases),
            PyEvent::Call { func, args, range } => self.record_call(func, args, *range),
        }
    }
}

/// Render `a.b.c` from a Name/Attribute chain.
fn dotted_name(e: &PyExpr) -> (r: Option<String>)
    ensures
        match spec_dotted_name(*e) {
            None => r.is_none(),
            Some(s) => r.is_some() && r.unwrap()@ == s,
        },
    decreases e,
{
    match e {
        PyExpr::Name { id, .. } => Some(id.clone()),
        PyExpr::Attribute { value, attr, .. } => match dotted_name(&**value) {
            Some(base) => {
                let mut s = base;
                push_char(&mut s, '.');
                push_str(&mut s, attr.as_str());
                Some(s)
            },
            None => None,
        },
        _ => None,
    }
}

/// The IO calls of a module whose file stem is `module_stem`, given its
/// syntax events in visit order.
pub fn scan_calls(module_stem: &str, events: &Vec<PyEvent>) -> (calls: Vec<IoCall>)
    ensures
        calls_view(calls@) == spec_scan_calls(module_stem@, events@),
{
    let mut v = ScanVisitor { module_stem: owned(module_stem), bindings: Vec::new(), calls: Vec::new() };
    assert(v.state().bindings =~= Seq::<(Seq<char>, BindingView)>::empty());
    assert(v.state().calls =~= Seq::<IoCallView>::empty());
    assert(events@.take(0) =~= Seq::<PyEvent>::empty());
    let mut i: usize = 0;
    while i < events.len()
        invariant
            i <= events@.len(),
            v.module_stem@ == module_stem@,
            v.state() == scan_events(module_stem@, events@.take(i as int)),
        decreases events@.len() - i,
    {
        assert(events@.take(i + 1).drop_last() =~= events@.take(i as int));
        v.visit(&events[i]);
        i = i + 1;
    }
    assert(events@.take(events@.len() as int) =~= events@);
    v.calls
}

pub open spec fn unreadable_step_diag(strict: bool, path: Seq<char>, err: Seq<char>) -> Option<
    crate::diagnostic::DiagnosticView,
> {
    make_diag(
        RuleId::InvalidSyntax,
        strict,
        "cannot read `"@ + path + "`: "@ + err,
        primary_at(SpanView { file: path, range: None }, "unreadable step"@),
        Seq::empty(),
    )
}

pub open spec fn syntax_error_diag(strict: bool, path: Seq<char>, message: Seq<char>, range: TextRange) -> Option<
    crate::diagnostic::DiagnosticView,
> {
    make_diag(
        RuleId::InvalidSyntax,
        strict,
        "syntax error: "@ + message,
        primary_at(SpanView { file: path, range: Some(range) }, "cannot parse this step"@),
        Seq::empty(),
    )
}

/// The module name a step's local classes are qualified with.
pub open spec fn spec_module_stem(path: Seq<char>) -> Seq<char> {
    match spec_file_stem(path) {
        Some(s) => s,
        None => Seq::empty(),
    }
}

/// Scan the Python step at `path`: report unreadable and unparsable steps,
/// otherwise collect its IO calls. A step the facts say nothing about is
/// added to `needs`.
pub fn scan(path: &str, facts: &Facts, strict: bool, needs: &mut Vec<Query>, ctx: &mut CheckContext) -> (r:
    Option<ScannedFile>)
    ensures
        match facts.spec_script(path@) {
            None => r.is_none() && final(ctx)@ == old(ctx)@ && queries_view(final(needs)@)
                == queries_view(old(needs)@).push(QueryView::LoadScript(path@)),
            Some(ScriptLoad::Unreadable(err)) => r.is_none() && final(needs)@ == old(needs)@
                && final(ctx)@ == push_opt(old(ctx)@, unreadable_step_diag(strict, path@, err@)),
            Some(ScriptLoad::Read { source, parsed }) => final(needs)@ == old(needs)@ && match parsed {
                Err(e) => r.is_none() && final(ctx)@ == push_opt(
                    old(ctx)@,
                    syntax_error_diag(strict, path@, e.message@, e.range),
                ),
                Ok(events) => final(ctx)@ == old(ctx)@ && r.is_some() && r.unwrap().path@ == path@
                    && r.unwrap().source@ == source@ && calls_view(r.unwrap().calls@)
                    == spec_scan_calls(spec_module_stem(path@), events@),
            },
        },
{
    match facts.script(path) {
        None => {
            let ghost q = QueryView::LoadScript(path@);
            needs.push(Query::LoadScript(owned(path)));
            assert(queries_view(needs@) =~= queries_view(old(needs)@).push(q));
            None
        },
        Some(ScriptLoad::Unreadable(err)) => {
            let rule = invalid_syntax();
            if let Some(b) = ctx.report(&rule, strict) {
                let mut msg = owned("cannot read `");
                push_str(&mut msg, path);
                push_str(&mut msg, "`: ");
                push_str(&mut msg, err.as_str());
                b.message(msg).primary(Span::file_only(owned(path)), owned("unreadable step")).emit(ctx);
            }
            None
        },
        Some(ScriptLoad::Read { source, parsed }) => match parsed {
            Err(e) => {
                let rule = invalid_syntax();
                if let Some(b) = ctx.report(&rule, strict) {
                    let mut msg = owned("syntax error: ");
                    push_str(&mut msg, e.message.as_str());
                    b.message(msg).primary(
                        Span::new(owned(path), e.range),
                        owned("cannot parse this step"),
                    ).emit(ctx);
                }
                None
            },
            Ok(events) => {
                let stem = match file_stem(path) {
                    Some(s) => s,
                    None => String::new(),
                };
                let calls = scan_calls(stem.as_str(), events);
                Some(ScannedFile { path: owned(path), source: source.clone(), calls })
            },
        },
    }
}

} // verus!
