//! Whole-river checks on small projects, rendered in the full format.
//!
//! Each project is a set of files: river YAMLs with the document a YAML
//! parser reads from them, Python steps with the syntax events a parser
//! visits in them, and plain files. The checker asks for what it needs and
//! the project answers, as the command line does with the disk.

use riv_checker::cli::report;
use riv_checker::diagnostic::Diagnostic;
use riv_checker::facts::{Facts, PipelineLoad, Query, ScriptLoad};
use riv_checker::pipeline::{PipelineDoc, PipelineFile};
use riv_checker::python::{PyAlias, PyEvent, PyExpr};
use riv_checker::render::{OutputFormat, Rendered, Sources};
use riv_checker::text::TextRange;
use riv_checker::{check_all, check_rivers, resolve_run_steps, CheckResult};
use riv_checker::cli::{after_step, failure_exit, no_river_message, river_entry, run_start, step_invocation, RunAction, StepOutcome};
use riv_checker::diagnostic::{effective_level, Annotation, Severity, Span};
use riv_checker::paths::normalize;
use riv_checker::pipeline::{is_yaml_file, looks_like_pipeline, shape_is_river, skip_dir, ResolvedStep, StepsShape};
use riv_checker::render::{can_render, plural, position, severity_tag, summary_line};
use riv_checker::rules::{unannotated_io, Level};

enum File {
    River(String, PipelineDoc),
    Script(String, Vec<PyEvent>),
}

type Project = fn(&str) -> Option<File>;

fn text_of(project: Project, path: &str) -> Option<String> {
    match project(path) {
        Some(File::River(t, _)) => Some(t),
        Some(File::Script(t, _)) => Some(t),
        None => None,
    }
}

/// Answer every question the checker asks, until it asks none.
fn answer(project: Project, facts: &mut Facts, needs: &[Query]) {
    for q in needs {
        match q {
            Query::IsFile(p) => {
                if !facts.files.iter().any(|(k, _)| k == p) {
                    facts.files.push((p.clone(), project(p).is_some()));
                }
            }
            Query::LoadPipeline(p) => {
                if !facts.pipelines.iter().any(|(k, _)| k == p) {
                    let load = match project(p) {
                        Some(File::River(source, doc)) => PipelineLoad::Read { source, doc: Ok(doc) },
                        _ => PipelineLoad::Unreadable("No such file or directory (os error 2)".to_string()),
                    };
                    facts.pipelines.push((p.clone(), load));
                }
            }
            Query::LoadScript(p) => {
                if !facts.scripts.iter().any(|(k, _)| k == p) {
                    let load = match project(p) {
                        Some(File::Script(source, events)) => ScriptLoad::Read { source, parsed: Ok(events) },
                        _ => ScriptLoad::Unreadable("No such file or directory (os error 2)".to_string()),
                    };
                    facts.scripts.push((p.clone(), load));
                }
            }
        }
    }
}

fn check(project: Project, roots: &[&str]) -> CheckResult {
    let mut facts = Facts::new();
    let rivers: Vec<String> = roots.iter().map(|r| r.to_string()).collect();
    loop {
        let result = check_rivers(rivers.clone(), &facts);
        if result.needs.is_empty() {
            return result;
        }
        answer(project, &mut facts, &result.needs);
    }
}

/// Check every river among the project's YAML files.
fn check_project(project: Project, yaml_files: &[&str]) -> CheckResult {
    let candidates: Vec<(String, String)> = yaml_files
        .iter()
        .map(|p| (p.to_string(), text_of(project, p).unwrap()))
        .collect();
    let mut facts = Facts::new();
    loop {
        let result = check_all(&candidates, &facts);
        if result.needs.is_empty() {
            return result;
        }
        answer(project, &mut facts, &result.needs);
    }
}

fn sources(project: Project, diagnostics: &[Diagnostic]) -> Sources {
    let mut files: Vec<(String, Option<String>)> = Vec::new();
    for d in diagnostics {
        for a in &d.annotations {
            if !files.iter().any(|(k, _)| *k == a.span.file) {
                files.push((a.span.file.clone(), text_of(project, &a.span.file)));
            }
        }
    }
    Sources { files }
}

/// What `riv check` prints for the result, in `format`.
fn printed(project: Project, result: &CheckResult, format: OutputFormat) -> String {
    let src = sources(project, &result.diagnostics);
    let r = report(result, format, &src);
    let mut out = match r.body {
        Rendered::Text(t) => t,
        Rendered::Json(_) => panic!("text format expected"),
    };
    if let Some(s) = r.summary {
        out.push_str(&s);
        out.push('\n');
    }
    out
}

fn full(project: Project, result: &CheckResult) -> String {
    let src = sources(project, &result.diagnostics);
    match riv_checker::render::render_to_string(&result.diagnostics, OutputFormat::Full, &src) {
        Rendered::Text(t) => t,
        Rendered::Json(_) => panic!("text format expected"),
    }
}

// ---------------------------------------------------------------------------
// Syntax events
// ---------------------------------------------------------------------------

fn at(src: &str, needle: &str) -> u32 {
    src.find(needle).unwrap_or_else(|| panic!("`{needle}` not in source")) as u32
}

fn range(start: u32, len: usize) -> TextRange {
    TextRange { start, end: start + len as u32 }
}

fn name(src: &str, id: &str, from: &str) -> PyExpr {
    let start = at(src, from);
    PyExpr::Name { id: id.to_string(), range: range(start, id.len()) }
}

fn string(src: &str, value: &str) -> PyExpr {
    let quoted = format!("\"{value}\"");
    let start = at(src, &quoted);
    PyExpr::StringLiteral { value: value.to_string(), range: range(start, quoted.len()) }
}

fn other(src: &str, text: &str) -> PyExpr {
    let start = at(src, text);
    PyExpr::Other { range: range(start, text.len()) }
}

fn from_import(module: &str, names: &[&str]) -> PyEvent {
    PyEvent::ImportFrom {
        module: Some(module.to_string()),
        names: names.iter().map(|n| PyAlias { name: n.to_string(), asname: None }).collect(),
    }
}

/// `func(args)` written as `text` in `src`.
fn call(src: &str, text: &str, func: PyExpr, args: Vec<PyExpr>) -> PyEvent {
    let start = at(src, text);
    PyEvent::Call { func, args, range: range(start, text.len()) }
}

/// `Receiver.method(args)` written as `text` in `src`.
fn method_call(src: &str, text: &str, receiver: &str, method: &str, args: Vec<PyExpr>) -> PyEvent {
    let start = at(src, text);
    let recv = PyExpr::Name { id: receiver.to_string(), range: range(start, receiver.len()) };
    let func = PyExpr::Attribute {
        value: Box::new(recv),
        attr: method.to_string(),
        range: range(start, receiver.len() + 1 + method.len()),
    };
    PyEvent::Call { func, args, range: range(start, text.len()) }
}

fn river(text: &str, strict: bool, steps: &[&str]) -> File {
    File::River(
        text.to_string(),
        PipelineDoc {
            name: Some("demo".to_string()),
            strict,
            steps: steps.iter().map(|s| s.to_string()).collect(),
        },
    )
}

// ---------------------------------------------------------------------------
// Projects
// ---------------------------------------------------------------------------

const BARE_PRODUCE: &str = "from riv import riv_out\n\nriv_out([1], \"users.pkl\")\n";

fn bare_produce() -> File {
    let src = BARE_PRODUCE;
    File::Script(
        src.to_string(),
        vec![
            from_import("riv", &["riv_out"]),
            call(
                src,
                "riv_out([1], \"users.pkl\")",
                name(src, "riv_out", "riv_out(["),
                vec![other(src, "[1]"), string(src, "users.pkl")],
            ),
        ],
    )
}

fn unannotated_basic(path: &str) -> Option<File> {
    match path {
        "pipeline.yaml" => Some(river("name: demo\nsteps:\n  - produce.py\n", false, &["produce.py"])),
        "produce.py" => Some(bare_produce()),
        _ => None,
    }
}

fn unannotated_strict(path: &str) -> Option<File> {
    match path {
        "pipeline.yaml" => Some(river("name: demo\nstrict: true\nsteps:\n  - produce.py\n", true, &["produce.py"])),
        "produce.py" => Some(bare_produce()),
        _ => None,
    }
}

fn untyped_escape_hatch(path: &str) -> Option<File> {
    let produce = "from riv import Untyped\n\nUntyped.riv_out([1], \"users.pkl\")\n";
    let consume = "from riv import Untyped\n\nusers = Untyped.riv_in(\"users.pkl\")\n";
    match path {
        "pipeline.yaml" => Some(river(
            "name: demo\nsteps:\n  - produce.py\n  - consume.py\n",
            false,
            &["produce.py", "consume.py"],
        )),
        "produce.py" => Some(File::Script(
            produce.to_string(),
            vec![
                from_import("riv", &["Untyped"]),
                method_call(
                    produce,
                    "Untyped.riv_out([1], \"users.pkl\")",
                    "Untyped",
                    "riv_out",
                    vec![other(produce, "[1]"), string(produce, "users.pkl")],
                ),
            ],
        )),
        "consume.py" => Some(File::Script(
            consume.to_string(),
            vec![
                from_import("riv", &["Untyped"]),
                method_call(
                    consume,
                    "Untyped.riv_in(\"users.pkl\")",
                    "Untyped",
                    "riv_in",
                    vec![string(consume, "users.pkl")],
                ),
            ],
        )),
        _ => None,
    }
}

const SCHEMAS: &str = "from riv import Schema\n\n\nclass UsersDf(Schema): ...\n";

fn schemas() -> File {
    let src = SCHEMAS;
    File::Script(
        src.to_string(),
        vec![
            from_import("riv", &["Schema"]),
            PyEvent::ClassDef { name: "UsersDf".to_string(), bases: vec![name(src, "Schema", "Schema)")] },
        ],
    )
}

fn typed_consumer(src: &str, schema: &str, text: &str) -> File {
    File::Script(
        src.to_string(),
        vec![
            from_import("schemas", &[schema]),
            method_call(src, text, schema, "riv_in", vec![string(src, "users.pkl")]),
        ],
    )
}

fn consume_before_produce(path: &str) -> Option<File> {
    let train = "from schemas import UsersDf\n\nusers = UsersDf.riv_in(\"users.pkl\")\nprint(\"ran anyway\")\n";
    match path {
        "pipeline.yaml" => Some(river("name: demo\nsteps:\n  - train.py\n", false, &["train.py"])),
        "schemas.py" => Some(schemas()),
        "train.py" => Some(typed_consumer(train, "UsersDf", "UsersDf.riv_in(\"users.pkl\")")),
        _ => None,
    }
}

const PREPROCESS: &str =
    "from schemas import UsersDf\n\nusers = [1, 2, 3]\nUsersDf.riv_out(users, \"users.pkl\")\nprint(\"step: preprocess\")\n";

fn preprocess() -> File {
    let src = PREPROCESS;
    File::Script(
        src.to_string(),
        vec![
            from_import("schemas", &["UsersDf"]),
            method_call(
                src,
                "UsersDf.riv_out(users, \"users.pkl\")",
                "UsersDf",
                "riv_out",
                vec![name(src, "users", "users, "), string(src, "users.pkl")],
            ),
        ],
    )
}

const TRAIN: &str =
    "from schemas import UsersDf\n\nusers = UsersDf.riv_in(\"users.pkl\")\nprint(f\"step: train ({len(users)} users)\")\n";

fn train() -> File {
    typed_consumer(TRAIN, "UsersDf", "UsersDf.riv_in(\"users.pkl\")")
}

fn schema_mismatch(path: &str) -> Option<File> {
    let train = "from schemas import OrdersDf\n\norders = OrdersDf.riv_in(\"users.pkl\")\n";
    match path {
        "pipeline.yaml" => Some(river(
            "name: demo\nsteps:\n  - preprocess.py\n  - train.py\n",
            false,
            &["preprocess.py", "train.py"],
        )),
        "preprocess.py" => Some(preprocess()),
        "train.py" => Some(typed_consumer(train, "OrdersDf", "OrdersDf.riv_in(\"users.pkl\")")),
        _ => None,
    }
}

fn cycle(path: &str) -> Option<File> {
    match path {
        "pipeline.yaml" => Some(river("name: a\nsteps:\n  - b.yaml\n", false, &["b.yaml"])),
        "b.yaml" => Some(river("name: b\nsteps:\n  - pipeline.yaml\n", false, &["pipeline.yaml"])),
        _ => None,
    }
}

fn missing_step(path: &str) -> Option<File> {
    match path {
        "pipeline.yaml" => Some(river("name: demo\nsteps:\n  - ghost.py\n", false, &["ghost.py"])),
        _ => None,
    }
}

fn typed_project(path: &str) -> Option<File> {
    match path {
        "pipeline.yaml" => Some(river(
            "name: demo\nsteps:\n  - preprocess.py\n  - train.py\n",
            false,
            &["preprocess.py", "train.py"],
        )),
        "schemas.py" => Some(schemas()),
        "preprocess.py" => Some(preprocess()),
        "train.py" => Some(train()),
        _ => None,
    }
}

// ---------------------------------------------------------------------------
// The checks, one project each
// ---------------------------------------------------------------------------

const UNANNOTATED_WARNING: &str = "warning[unannotated-io]: artifact `users.pkl` is produced without a schema; the checker cannot see it
  --> produce.py:3:1
   |
 3 | riv_out([1], \"users.pkl\")
   | ^^^^^^^^^^^^^^^^^^^^^^^^^ bare `riv_out()`
   |
   = help: attach a schema (`UsersDf.riv_out(df, path)`) or mark the decision with `Untyped.riv_out(...)`

";

#[test]
fn unannotated_io_basic() {
    let result = check_project(unannotated_basic, &["pipeline.yaml"]);
    assert_eq!(full(unannotated_basic, &result), UNANNOTATED_WARNING);
}

#[test]
fn unannotated_io_strict() {
    let result = check_project(unannotated_strict, &["pipeline.yaml"]);
    assert_eq!(full(unannotated_strict, &result), UNANNOTATED_WARNING.replacen("warning[", "error[", 1));
}

#[test]
fn unannotated_io_untyped_escape_hatch() {
    let result = check_project(untyped_escape_hatch, &["pipeline.yaml"]);
    assert_eq!(full(untyped_escape_hatch, &result), "");
}

#[test]
fn consume_before_produce_basic() {
    let result = check_project(consume_before_produce, &["pipeline.yaml"]);
    assert_eq!(
        full(consume_before_produce, &result),
        "error[consume-before-produce]: `users.pkl` is consumed before it is produced
  --> train.py:3:9
   |
 3 | users = UsersDf.riv_in(\"users.pkl\")
   |         ^^^^^^^^^^^^^^^^^^^^^^^^^^^ `users.pkl` does not exist yet
   |
   = note: no step in this pipeline produces it, and it does not exist on disk

"
    );
}

#[test]
fn schema_mismatch_basic() {
    let result = check_project(schema_mismatch, &["pipeline.yaml"]);
    assert_eq!(
        full(schema_mismatch, &result),
        "error[schema-mismatch]: `users.pkl` is consumed as `schemas.OrdersDf` but was produced as `schemas.UsersDf`
  --> train.py:3:10
   |
 3 | orders = OrdersDf.riv_in(\"users.pkl\")
   |          ^^^^^^^^ consumed as `schemas.OrdersDf`
   |
  ::: preprocess.py:4:1
   |
 4 | UsersDf.riv_out(users, \"users.pkl\")
   | ------- produced as `schemas.UsersDf`
   |
   = note: schema matching is name-level: producer and consumer must use the same schema symbol

"
    );
}

#[test]
fn cycle_basic() {
    let result = check_project(cycle, &["pipeline.yaml", "b.yaml"]);
    assert_eq!(
        full(cycle, &result),
        "error[cycle]: pipeline `pipeline.yaml` includes itself via `pipeline.yaml`
  --> b.yaml:3:5
   |
 3 |   - pipeline.yaml
   |     ^^^^^^^^^^^^^ this step closes the cycle
   |

error[cycle]: pipeline `b.yaml` includes itself via `b.yaml`
  --> pipeline.yaml:3:5
   |
 3 |   - b.yaml
   |     ^^^^^^ this step closes the cycle
   |

"
    );
}

#[test]
fn missing_step_basic() {
    let result = check_project(missing_step, &["pipeline.yaml"]);
    assert_eq!(
        full(missing_step, &result),
        "error[missing-step]: step `ghost.py` does not exist
  --> pipeline.yaml:3:5
   |
 3 |   - ghost.py
   |     ^^^^^^^^ listed here
   |

"
    );
}

#[test]
fn clean_river_has_no_diagnostics() {
    let result = check_project(typed_project, &["pipeline.yaml"]);
    assert_eq!(full(typed_project, &result), "");
    assert_eq!(result.error_count(), 0);
    assert_eq!(result.warning_count(), 0);
}

// ---------------------------------------------------------------------------
// What the command line prints for them
// ---------------------------------------------------------------------------

#[test]
fn check_clean_project() {
    let result = check_project(typed_project, &["pipeline.yaml"]);
    assert_eq!(
        printed(typed_project, &result, OutputFormat::Full),
        "Checked 1 pipeline: 0 errors, 0 warnings.\n"
    );
    assert_eq!(report(&result, OutputFormat::Full, &Sources { files: vec![] }).exit, 0);
}

#[test]
fn check_warns_on_unannotated_io() {
    let result = check_project(unannotated_basic, &["pipeline.yaml"]);
    assert_eq!(
        printed(unannotated_basic, &result, OutputFormat::Full),
        format!("{UNANNOTATED_WARNING}Checked 1 pipeline: 0 errors, 1 warning.\n")
    );
    let src = sources(unannotated_basic, &result.diagnostics);
    assert_eq!(report(&result, OutputFormat::Full, &src).exit, 0);
}

#[test]
fn strict_promotes_unannotated_io_to_error() {
    let result = check_project(unannotated_strict, &["pipeline.yaml"]);
    assert_eq!(
        printed(unannotated_strict, &result, OutputFormat::Full),
        format!(
            "{}Checked 1 pipeline: 1 error, 0 warnings.\n",
            UNANNOTATED_WARNING.replacen("warning[", "error[", 1)
        )
    );
    let src = sources(unannotated_strict, &result.diagnostics);
    assert_eq!(report(&result, OutputFormat::Full, &src).exit, 1);
}

#[test]
fn concise_output_format() {
    let result = check_project(unannotated_basic, &["pipeline.yaml"]);
    assert_eq!(
        printed(unannotated_basic, &result, OutputFormat::Concise),
        "warning[unannotated-io] produce.py:3:1: artifact `users.pkl` is produced without a schema; the checker cannot see it\nChecked 1 pipeline: 0 errors, 1 warning.\n"
    );
}

#[test]
fn single_pipeline_check() {
    let result = check(typed_project, &["pipeline.yaml"]);
    assert_eq!(
        printed(typed_project, &result, OutputFormat::Full),
        "Checked 1 pipeline: 0 errors, 0 warnings.\n"
    );
}

#[test]
fn run_refuses_pipeline_that_does_not_check() {
    fn project(path: &str) -> Option<File> {
        let train = "from schemas import UsersDf\n\nusers = UsersDf.riv_in(\"users.pkl\")\nprint(\"ran anyway\")\n";
        match path {
            "pipeline.yaml" => Some(river("name: demo\nsteps:\n  - train.py\n", false, &["train.py"])),
            "schemas.py" => Some(schemas()),
            "train.py" => Some(typed_consumer(train, "UsersDf", "UsersDf.riv_in(\"users.pkl\")")),
            _ => None,
        }
    }
    let result = check(project, &["pipeline.yaml"]);
    assert!(result.error_count() > 0);
    assert_eq!(
        printed(project, &result, OutputFormat::Full),
        "error[consume-before-produce]: `users.pkl` is consumed before it is produced
  --> train.py:3:9
   |
 3 | users = UsersDf.riv_in(\"users.pkl\")
   |         ^^^^^^^^^^^^^^^^^^^^^^^^^^^ `users.pkl` does not exist yet
   |
   = note: no step in this pipeline produces it, and it does not exist on disk

Checked 1 pipeline: 1 error, 0 warnings.
"
    );
    assert_eq!(
        riv_checker::cli::refusal("pipeline.yaml"),
        "error: `pipeline.yaml` does not check; refusing to run (use --no-check to override)"
    );
}

/// The steps a run starts, as the progress lines it prints.
fn run_lines(project: Project, river: &str) -> Vec<String> {
    let mut facts = Facts::new();
    loop {
        let (steps, needs) = resolve_run_steps(river, &facts);
        if needs.is_empty() {
            let total = steps.len();
            return steps
                .iter()
                .enumerate()
                .map(|(i, s)| riv_checker::cli::progress_line(i, total, &s.script))
                .collect();
        }
        answer(project, &mut facts, &needs);
    }
}

#[test]
fn run_executes_steps_in_order() {
    assert_eq!(run_lines(typed_project, "pipeline.yaml"), vec!["[1/2] preprocess.py", "[2/2] train.py"]);
}

#[test]
fn bare_pipeline_runs() {
    assert_eq!(run_lines(typed_project, "pipeline.yaml"), vec!["[1/2] preprocess.py", "[2/2] train.py"]);
}

#[test]
fn run_no_check_is_the_escape_hatch() {
    fn project(path: &str) -> Option<File> {
        let step = "from riv import Untyped\nimport pathlib\n\nUntyped.riv_out([1], \"blob.pkl\")\nprint(\"unchecked step ran\")\n";
        match path {
            "pipeline.yaml" => Some(river(
                "name: demo\nsteps:\n  - step.py\n  - ghost.py\n",
                false,
                &["step.py", "ghost.py"],
            )),
            "step.py" => Some(File::Script(step.to_string(), vec![])),
            _ => None,
        }
    }
    assert_eq!(run_lines(project, "pipeline.yaml"), vec!["[1/1] step.py"]);
}

#[test]
fn run_propagates_step_failure() {
    fn project(path: &str) -> Option<File> {
        match path {
            "pipeline.yaml" => Some(river(
                "name: demo\nsteps:\n  - fail.py\n  - never.py\n",
                false,
                &["fail.py", "never.py"],
            )),
            "fail.py" => Some(File::Script("import sys\n\nprint(\"failing\")\nsys.exit(3)\n".to_string(), vec![])),
            "never.py" => Some(File::Script("print(\"must not run\")\n".to_string(), vec![])),
            _ => None,
        }
    }
    let lines = run_lines(project, "pipeline.yaml");
    assert_eq!(lines[0], "[1/2] fail.py");
    assert_eq!(
        riv_checker::cli::step_failed("fail.py", "exit status: 3"),
        "error: step `fail.py` failed with exit status: 3"
    );
    assert_eq!(riv_checker::cli::failure_exit(Some(3)), 3);
}

// ---------------------------------------------------------------------------
// Laws, on concrete rivers
// ---------------------------------------------------------------------------

#[test]
fn strict_only_promotes_warn_level_rules() {
    assert_eq!(effective_level(&unannotated_io(), false), Level::Warn);
    assert_eq!(effective_level(&unannotated_io(), true), Level::Error);
    assert_eq!(effective_level(&riv_checker::rules::cycle(), false), Level::Error);
    assert_eq!(effective_level(&riv_checker::rules::cycle(), true), Level::Error);
    let mut quiet = unannotated_io();
    quiet.default_level = Level::Ignore;
    assert_eq!(effective_level(&quiet, true), Level::Ignore);
}

fn mixed(path: &str) -> Option<File> {
    match path {
        "pipeline.yaml" => Some(river(
            "name: demo\nsteps:\n  - produce.py\n  - ghost.py\n",
            false,
            &["produce.py", "ghost.py"],
        )),
        "produce.py" => Some(bare_produce()),
        _ => None,
    }
}

#[test]
fn error_and_warning_counts_add_up() {
    let result = check(mixed, &["pipeline.yaml"]);
    assert_eq!(result.error_count(), 1);
    assert_eq!(result.warning_count(), 1);
    assert_eq!(result.error_count() + result.warning_count(), result.diagnostics.len());
}

#[test]
fn checking_a_river_twice_reports_each_problem_once() {
    let once = check(mixed, &["pipeline.yaml"]);
    let twice = check(mixed, &["pipeline.yaml", "pipeline.yaml"]);
    assert_eq!(full(mixed, &once), full(mixed, &twice));
    assert_eq!(twice.diagnostics.len(), 2);
    assert_eq!(twice.rivers.len(), 2);
}

#[test]
fn report_is_sorted_by_file() {
    let result = check(mixed, &["pipeline.yaml"]);
    let files: Vec<&str> = result.diagnostics.iter().map(|d| d.annotations[0].span.file.as_str()).collect();
    assert_eq!(files, vec!["pipeline.yaml", "produce.py"]);
}

fn strict_parent(path: &str) -> Option<File> {
    match path {
        "pipeline.yaml" => Some(river("name: outer\nstrict: true\nsteps:\n  - sub/inner.yaml\n", true, &["sub/inner.yaml"])),
        "sub/inner.yaml" => Some(river("name: inner\nsteps:\n  - produce.py\n", false, &["produce.py"])),
        "sub/produce.py" => Some(bare_produce()),
        _ => None,
    }
}

#[test]
fn strictness_is_inherited_by_sub_rivers() {
    let outer = check(strict_parent, &["pipeline.yaml"]);
    assert_eq!(outer.error_count(), 1);
    assert_eq!(outer.warning_count(), 0);
    assert_eq!(outer.diagnostics[0].annotations[0].span.file, "sub/produce.py");
    let inner = check(strict_parent, &["sub/inner.yaml"]);
    assert_eq!(inner.error_count(), 0);
    assert_eq!(inner.warning_count(), 1);
    let mut facts = Facts::new();
    let steps = loop {
        let (steps, needs) = resolve_run_steps("pipeline.yaml", &facts);
        if needs.is_empty() {
            break steps;
        }
        answer(strict_parent, &mut facts, &needs);
    };
    assert_eq!(steps.len(), 1);
    assert!(steps[0].strict);
    assert_eq!(steps[0].script, "sub/produce.py");
    assert_eq!(steps[0].dir, "sub");
}

fn late_producer(path: &str) -> Option<File> {
    match path {
        "pipeline.yaml" => Some(river(
            "name: demo\nsteps:\n  - train.py\n  - preprocess.py\n",
            false,
            &["train.py", "preprocess.py"],
        )),
        "preprocess.py" => Some(preprocess()),
        "train.py" => Some(train()),
        _ => None,
    }
}

#[test]
fn consuming_before_a_later_producer_names_it() {
    let result = check(late_producer, &["pipeline.yaml"]);
    assert_eq!(result.diagnostics.len(), 1);
    assert_eq!(
        result.diagnostics[0].subs[0].message,
        "`preprocess.py` produces it, but runs later — steps run in the order listed; riv does not reorder them"
    );
}

fn external_input(path: &str) -> Option<File> {
    match path {
        "pipeline.yaml" => Some(river("name: demo\nsteps:\n  - train.py\n", false, &["train.py"])),
        "train.py" => Some(train()),
        "users.pkl" => Some(File::Script(String::new(), vec![])),
        _ => None,
    }
}

#[test]
fn consuming_an_existing_file_is_fine() {
    let result = check(external_input, &["pipeline.yaml"]);
    assert_eq!(result.diagnostics.len(), 0);
}

#[test]
fn normalizing_is_idempotent() {
    let cases = [
        ("a/./b/../c", "a/c"),
        ("./pipeline.yaml", "pipeline.yaml"),
        ("../..", "../.."),
        ("../../x", "../../x"),
        ("../a/..", ".."),
        ("a/../..", ".."),
        ("/..", "/.."),
        ("/a//b/", "/a/b"),
        ("", ""),
        ("a/../../b", "../b"),
    ];
    for (input, expected) in cases {
        let once = normalize(input);
        assert_eq!(once, expected, "normalize({input:?})");
        assert_eq!(normalize(&once), once);
    }
}

#[test]
fn discovery_finds_rivers_sorted() {
    let candidates = vec![
        ("./z.yaml".to_string(), "steps:\n  - a.py\n".to_string()),
        ("./ci.yml".to_string(), "jobs:\n  build: {}\n".to_string()),
        ("./a/river.yml".to_string(), "name: a\nsteps: []\n".to_string()),
        ("./b.yaml".to_string(), "steps: 3\n".to_string()),
        ("./notes.txt".to_string(), "steps:\n  - a.py\n".to_string()),
        ("./m.yaml".to_string(), "steps:\n  - a.py\n".to_string()),
    ];
    assert_eq!(riv_checker::discover_rivers(&candidates), vec!["./a/river.yml", "./m.yaml", "./z.yaml"]);
}

#[test]
fn yaml_shape_decides_what_is_a_river() {
    assert!(looks_like_pipeline("name: x\nsteps:\n  - a.py\n"));
    assert!(looks_like_pipeline("steps: []\n"));
    assert!(!looks_like_pipeline("steps: 3\n"));
    assert!(!looks_like_pipeline("steps:\n  a: b\n"));
    assert!(!looks_like_pipeline("name: x\n"));
    assert!(!looks_like_pipeline("- steps\n"));
    assert!(!looks_like_pipeline("steps: [unclosed\n"));
}

#[test]
fn walk_skips_hidden_and_build_directories() {
    for name in [".git", ".venv", "target", "node_modules", "__pycache__", "venv"] {
        assert!(skip_dir(name), "{name}");
    }
    for name in ["src", "venvs", "targets", "data"] {
        assert!(!skip_dir(name), "{name}");
    }
    assert!(is_yaml_file("./a/river.yaml"));
    assert!(is_yaml_file("x.yml"));
    assert!(!is_yaml_file("x.yaml.bak"));
    assert!(!is_yaml_file(".yaml"));
}

// ---------------------------------------------------------------------------
// Errors the checker reports
// ---------------------------------------------------------------------------

fn broken(path: &str) -> Option<File> {
    let bad_syntax = "def f(:\n";
    match path {
        "pipeline.yaml" => Some(river(
            "name: demo\nsteps:\n  - notes.txt\n  - bad.py\n  - sub.yaml\n  - gone.yaml\n",
            false,
            &["notes.txt", "bad.py", "sub.yaml", "gone.yaml"],
        )),
        "sub.yaml" => Some(File::River("steps: 3\n".to_string(), PipelineDoc { name: None, strict: false, steps: vec![] })),
        "bad.py" => Some(File::Script(bad_syntax.to_string(), vec![])),
        _ => None,
    }
}

#[test]
fn each_structural_error_is_reported() {
    fn project(path: &str) -> Option<File> {
        broken(path)
    }
    let mut facts = Facts::new();
    facts.pipelines.push((
        "sub.yaml".to_string(),
        PipelineLoad::Read {
            source: "steps: 3\n".to_string(),
            doc: Err("steps: invalid type: integer `3`, expected a sequence at line 1 column 8".to_string()),
        },
    ));
    facts.scripts.push((
        "bad.py".to_string(),
        ScriptLoad::Read {
            source: "def f(:\n".to_string(),
            parsed: Err(riv_checker::python::SyntaxError {
                message: "Expected a parameter name".to_string(),
                range: TextRange { start: 6, end: 7 },
            }),
        },
    ));
    let result = loop {
        let r = check_rivers(vec!["pipeline.yaml".to_string()], &facts);
        if r.needs.is_empty() {
            break r;
        }
        answer(project, &mut facts, &r.needs);
    };
    let concise = printed(project, &result, OutputFormat::Concise);
    assert_eq!(
        concise,
        "error[invalid-syntax] bad.py:1:7: syntax error: Expected a parameter name
error[invalid-pipeline] pipeline.yaml:3:5: step `notes.txt` is not a `.py` script or a `.yaml` pipeline
error[missing-step] pipeline.yaml:6:5: step `gone.yaml` does not exist
error[invalid-pipeline] sub.yaml: `sub.yaml` is not a valid pipeline: steps: invalid type: integer `3`, expected a sequence at line 1 column 8
Checked 1 pipeline: 4 errors, 0 warnings.
"
    );
}

#[test]
fn an_unreadable_river_is_reported() {
    let result = check(missing_step, &["nowhere.yaml"]);
    assert_eq!(
        printed(missing_step, &result, OutputFormat::Concise),
        "error[invalid-pipeline] nowhere.yaml: cannot read `nowhere.yaml`: No such file or directory (os error 2)\nChecked 1 pipeline: 1 error, 0 warnings.\n"
    );
}

// ---------------------------------------------------------------------------
// Rendering
// ---------------------------------------------------------------------------

#[test]
fn github_format_is_one_workflow_command_per_diagnostic() {
    let result = check(mixed, &["pipeline.yaml"]);
    let out = printed(mixed, &result, OutputFormat::Github);
    assert_eq!(
        out,
        "::error file=pipeline.yaml,line=4,col=5,title=riv (missing-step)::step `ghost.py` does not exist
::warning file=produce.py,line=3,col=1,title=riv (unannotated-io)::artifact `users.pkl` is produced without a schema; the checker cannot see it
"
    );
}

#[test]
fn json_format_lists_records() {
    let result = check(mixed, &["pipeline.yaml"]);
    let src = sources(mixed, &result.diagnostics);
    let records = riv_checker::render::json_records(&result.diagnostics, &src);
    assert_eq!(records.len(), 2);
    assert_eq!(records[0].rule, "missing-step");
    assert_eq!(records[0].severity, "error");
    assert_eq!(records[0].annotations[0].file, "pipeline.yaml");
    assert_eq!(records[0].annotations[0].line, Some(4));
    assert_eq!(records[0].annotations[0].column, Some(5));
    assert_eq!(records[0].annotations[0].message.as_deref(), Some("listed here"));
    assert!(records[0].annotations[0].primary);
    assert_eq!(records[1].subs.len(), 1);
    let r = report(&result, OutputFormat::Json, &src);
    assert!(r.summary.is_none());
    assert_eq!(r.exit, 1);
}

#[test]
fn positions_count_lines_and_characters() {
    let src = "ab\nçd = x(1,\n  2)\n";
    let p = position(src, TextRange { start: 9, end: 18 });
    assert_eq!(p.line, 2);
    assert_eq!(p.column, 6);
    assert_eq!(p.line_text, "çd = x(1,");
    assert_eq!(p.underline, (5, 4));
    let end = position(src, TextRange { start: 100, end: 200 });
    assert_eq!(end.line, 4);
    assert_eq!(end.column, 1);
    assert_eq!(end.line_text, "");
    assert_eq!(end.underline, (0, 1));
}

#[test]
fn ranges_inside_a_character_cannot_be_rendered() {
    let d = Diagnostic {
        rule: riv_checker::rules::missing_step(),
        severity: Severity::Error,
        message: "m".to_string(),
        annotations: vec![Annotation::primary(Span::new("x.py".to_string(), TextRange { start: 1, end: 2 }), "here".to_string())],
        subs: vec![],
    };
    let inside = Sources { files: vec![("x.py".to_string(), Some("é".to_string()))] };
    let between = Sources { files: vec![("x.py".to_string(), Some("ab".to_string()))] };
    let unread = Sources { files: vec![("x.py".to_string(), None)] };
    assert!(!can_render(&vec![d.clone()], &inside));
    assert!(can_render(&vec![d.clone()], &between));
    assert!(can_render(&vec![d], &unread));
}

#[test]
fn gutter_widens_for_long_files() {
    fn project(path: &str) -> Option<File> {
        let mut text = String::from("name: demo\nsteps:\n");
        for _ in 0..10 {
            text.push_str("  # padding\n");
        }
        text.push_str("  - ghost.py\n");
        match path {
            "pipeline.yaml" => Some(File::River(
                text,
                PipelineDoc { name: Some("demo".to_string()), strict: false, steps: vec!["ghost.py".to_string()] },
            )),
            _ => None,
        }
    }
    let result = check(project, &["pipeline.yaml"]);
    assert_eq!(
        full(project, &result),
        "error[missing-step]: step `ghost.py` does not exist
   --> pipeline.yaml:13:5
    |
 13 |   - ghost.py
    |     ^^^^^^^^ listed here
    |

"
    );
}

#[test]
fn summary_and_plurals() {
    assert_eq!(plural(0), "s");
    assert_eq!(plural(1), "");
    assert_eq!(plural(2), "s");
    assert_eq!(summary_line(2, 1, 0), "Checked 2 pipelines: 1 error, 0 warnings.");
    assert_eq!(summary_line(1, 12, 1), "Checked 1 pipeline: 12 errors, 1 warning.");
}

#[test]
fn severity_and_level_words() {
    assert_eq!(severity_tag(Severity::Warning), "warning");
    assert_eq!(severity_tag(Severity::Error), "error");
    assert_eq!(Level::Warn.as_str(), "warning");
    assert_eq!(Level::Ignore.as_str(), "ignore");
    assert_eq!(riv_checker::python::Direction::In.function_name(), "riv_in");
    assert_eq!(riv_checker::python::Direction::Out.function_name(), "riv_out");
}

#[test]
fn output_format_names() {
    assert_eq!(OutputFormat::parse("full"), Ok(OutputFormat::Full));
    assert_eq!(OutputFormat::parse("concise"), Ok(OutputFormat::Concise));
    assert_eq!(OutputFormat::parse("json"), Ok(OutputFormat::Json));
    assert_eq!(OutputFormat::parse("github"), Ok(OutputFormat::Github));
    assert_eq!(
        OutputFormat::parse("yaml"),
        Err("unknown output format `yaml` (expected full, concise, json, or github)".to_string())
    );
    assert_eq!("concise".parse::<OutputFormat>(), Ok(OutputFormat::Concise));
}

// ---------------------------------------------------------------------------
// The command line's decisions
// ---------------------------------------------------------------------------

#[test]
fn directory_arguments_and_their_messages() {
    assert_eq!(river_entry("train"), "train/river.yaml");
    assert_eq!(river_entry("train/"), "train/river.yaml");
    assert_eq!(no_river_message("train", &vec!["a.py".to_string()]), "error: no river.yaml in `train`");
    let names = vec!["z.yml".to_string(), "notes.md".to_string(), "b.yaml".to_string(), "A.yaml".to_string()];
    assert_eq!(no_river_message("train", &names), "error: no river.yaml in `train`; found: A.yaml, b.yaml, z.yml");
}

#[test]
fn steps_start_in_their_river_directory() {
    let nested = ResolvedStep { script: "sub/train.py".to_string(), dir: "sub".to_string(), strict: false };
    assert_eq!(step_invocation(&nested), ("train.py".to_string(), "sub".to_string()));
    let top = ResolvedStep { script: "train.py".to_string(), dir: String::new(), strict: true };
    assert_eq!(step_invocation(&top), ("train.py".to_string(), ".".to_string()));
}

#[test]
fn failed_steps_exit_with_their_status() {
    assert_eq!(failure_exit(Some(0)), 0);
    assert_eq!(failure_exit(Some(255)), 255);
    assert_eq!(failure_exit(Some(256)), 1);
    assert_eq!(failure_exit(Some(-1)), 1);
    assert_eq!(failure_exit(None), 1);
}

#[test]
fn only_a_list_of_steps_makes_a_river() {
    assert!(shape_is_river(Some(StepsShape::Sequence)));
    assert!(!shape_is_river(Some(StepsShape::Mapping)));
    assert!(!shape_is_river(Some(StepsShape::Other)));
    assert!(!shape_is_river(None));
}

#[test]
fn an_unreadable_step_is_reported() {
    let mut facts = Facts::new();
    facts.files.push(("locked.py".to_string(), true));
    facts.scripts.push(("locked.py".to_string(), ScriptLoad::Unreadable("Permission denied (os error 13)".to_string())));
    facts.pipelines.push((
        "pipeline.yaml".to_string(),
        PipelineLoad::Read {
            source: "steps:\n  - locked.py\n".to_string(),
            doc: Ok(PipelineDoc { name: None, strict: false, steps: vec!["locked.py".to_string()] }),
        },
    ));
    let result = check_rivers(vec!["pipeline.yaml".to_string()], &facts);
    assert!(result.needs.is_empty());
    assert_eq!(result.diagnostics.len(), 1);
    assert_eq!(result.diagnostics[0].rule.name, "invalid-syntax");
    assert_eq!(result.diagnostics[0].message, "cannot read `locked.py`: Permission denied (os error 13)");
    assert_eq!(result.diagnostics[0].annotations[0].message.as_deref(), Some("unreadable step"));
    assert!(result.diagnostics[0].annotations[0].span.range.is_none());
}

#[test]
fn unknown_facts_are_asked_for() {
    let facts = Facts::new();
    let first = check_rivers(vec!["./pipeline.yaml".to_string()], &facts);
    assert_eq!(first.needs, vec![Query::LoadPipeline("pipeline.yaml".to_string())]);
    assert!(first.diagnostics.is_empty());
}

// ---------------------------------------------------------------------------
// Merging, step ranges and run decisions
// ---------------------------------------------------------------------------

fn shared_sub_river(path: &str) -> Option<File> {
    match path {
        "s.yaml" => Some(river("steps:\n  - p.py\n", false, &["p.py"])),
        "z.yaml" => Some(river("strict: true\nsteps:\n  - s.yaml\n", true, &["s.yaml"])),
        "p.py" => Some(bare_produce()),
        _ => None,
    }
}

#[test]
fn a_strict_parent_error_survives_merging_with_the_sub_river_warning() {
    let all = check_project(shared_sub_river, &["s.yaml", "z.yaml"]);
    assert_eq!(all.rivers, vec!["s.yaml".to_string(), "z.yaml".to_string()]);
    assert_eq!(all.error_count(), 1);
    assert_eq!(all.warning_count(), 1);
    let strict_alone = check(shared_sub_river, &["z.yaml"]);
    assert_eq!(strict_alone.error_count(), 1);
    let sub_alone = check(shared_sub_river, &["s.yaml"]);
    assert_eq!(sub_alone.warning_count(), 1);
    assert!(all.error_count() >= strict_alone.error_count());
    assert!(all.warning_count() >= sub_alone.warning_count());
    // The warning sorts before the error of the same location.
    assert_eq!(all.diagnostics[0].severity, Severity::Warning);
    assert_eq!(all.diagnostics[1].severity, Severity::Error);
}

#[test]
fn step_range_finds_the_list_item_not_a_substring() {
    let p = PipelineFile {
        path: "pipeline.yaml".to_string(),
        source: "steps:\n  - ab.py\n  - b.py\n".to_string(),
        doc: PipelineDoc { name: None, strict: false, steps: vec!["ab.py".to_string(), "b.py".to_string()] },
    };
    assert_eq!(p.step_range("b.py"), Some(TextRange { start: 21, end: 25 }));
    assert_eq!(p.step_range("ab.py"), Some(TextRange { start: 11, end: 16 }));
    assert_eq!(p.step_range("c.py"), None);
    let flow = PipelineFile {
        path: "pipeline.yaml".to_string(),
        source: "steps: [\"ab.py\", b.py]\n".to_string(),
        doc: PipelineDoc { name: None, strict: false, steps: vec!["ab.py".to_string(), "b.py".to_string()] },
    };
    assert_eq!(flow.step_range("b.py"), Some(TextRange { start: 17, end: 21 }));
}

#[test]
fn run_decisions_refuse_start_and_stop() {
    assert_eq!(run_start(false, 1, 2), RunAction::Refuse);
    assert_eq!(run_start(true, 1, 2), RunAction::Start(0));
    assert_eq!(run_start(false, 0, 2), RunAction::Start(0));
    assert_eq!(run_start(false, 0, 0), RunAction::Done);
    assert_eq!(after_step(0, 2, StepOutcome::Success), RunAction::Start(1));
    assert_eq!(after_step(1, 2, StepOutcome::Success), RunAction::Done);
    assert_eq!(after_step(0, 2, StepOutcome::Failed(Some(3))), RunAction::Stop(3));
    assert_eq!(after_step(0, 2, StepOutcome::Failed(Some(300))), RunAction::Stop(1));
    assert_eq!(after_step(0, 2, StepOutcome::Failed(None)), RunAction::Stop(1));
    assert_eq!(after_step(1, 2, StepOutcome::NotStarted), RunAction::Stop(2));
}

#[test]
fn a_run_stops_at_its_first_failing_step() {
    let outcomes = [StepOutcome::Success, StepOutcome::Failed(Some(3)), StepOutcome::Success];
    let mut started = Vec::new();
    let mut action = run_start(false, 0, outcomes.len());
    let end = loop {
        match action {
            RunAction::Start(i) => {
                started.push(i);
                action = after_step(i, outcomes.len(), outcomes[i]);
            }
            other => break other,
        }
    };
    assert_eq!(started, vec![0, 1]);
    assert_eq!(end, RunAction::Stop(3));
}

#[test]
fn a_builder_keeps_annotations_and_notes_in_call_order() {
    let ctx0 = riv_checker::diagnostic::CheckContext::new();
    let b = ctx0.report(&unannotated_io(), true).unwrap();
    let b = b
        .secondary(Span::new("a.py".to_string(), TextRange { start: 0, end: 1 }), "first".to_string())
        .note("one".to_string())
        .primary(Span::new("b.py".to_string(), TextRange { start: 2, end: 3 }), "second".to_string())
        .message("the message".to_string())
        .help("two".to_string());
    let mut ctx = ctx0;
    b.emit(&mut ctx);
    let d = &ctx.diagnostics()[0];
    assert_eq!(d.severity, Severity::Error);
    assert_eq!(d.message, "the message");
    let labels: Vec<&str> = d.annotations.iter().map(|a| a.message.as_deref().unwrap()).collect();
    assert_eq!(labels, vec!["first", "second"]);
    assert!(!d.annotations[0].is_primary && d.annotations[1].is_primary);
    let subs: Vec<&str> = d.subs.iter().map(|s| s.message.as_str()).collect();
    assert_eq!(subs, vec!["one", "two"]);
}

fn strict_child(path: &str) -> Option<File> {
    match path {
        "root.yaml" => Some(river("steps:\n  - a.py\n  - sub/s.yaml\n", false, &["a.py", "sub/s.yaml"])),
        "sub/s.yaml" => Some(river("strict: true\nsteps:\n  - b.py\n", true, &["b.py"])),
        "a.py" => Some(bare_produce()),
        "sub/b.py" => Some(bare_produce()),
        _ => None,
    }
}

#[test]
fn strictness_comes_from_the_inclusion_chain() {
    let mut facts = Facts::new();
    let steps = loop {
        let (steps, needs) = resolve_run_steps("root.yaml", &facts);
        if needs.is_empty() {
            break steps;
        }
        answer(strict_child, &mut facts, &needs);
    };
    assert_eq!(steps.len(), 2);
    assert_eq!(steps[0].script, "a.py");
    assert!(!steps[0].strict);
    assert_eq!(steps[1].script, "sub/b.py");
    assert!(steps[1].strict);
    let result = check(strict_child, &["root.yaml"]);
    assert_eq!(result.error_count(), 1);
    assert_eq!(result.warning_count(), 1);
}
