//! The decisions of the `riv` command line, apart from its input and
//! output: which file a river argument names, how a step is started, what
//! the messages say, and which exit status a run ends with.

use vstd::prelude::*;
use vstd::string::StrSliceExecFns;

use crate::order::{compare_chars, lemma_str_lt_strict_total, str_lt, Compared};
use crate::paths::{file_name, join, spec_extension, spec_file_name, spec_join};
use crate::pipeline::{is_yaml_ext, is_yaml_file, strings_view, ResolvedStep};
use crate::render::{
    render_to_string, renderable, spec_concise, spec_full, summary_line, spec_summary_line, OutputFormat,
    Rendered, Sources,
};
use crate::text::{chars_of, decimal, owned, push_decimal, push_str};
use crate::{count_severity, CheckResult};

verus! {

/// The river a directory argument means: its `river.yaml`.
pub open spec fn spec_river_entry(dir: Seq<char>) -> Seq<char> {
    spec_join(dir, "river.yaml"@)
}

pub fn river_entry(dir: &str) -> (r: String)
    ensures
        r@ == spec_river_entry(dir@),
{
    join(dir, "river.yaml")
}

/// Names strictly increase.
pub open spec fn names_sorted(s: Seq<Seq<char>>) -> bool {
    forall|i: int, j: int| 0 <= i < j < s.len() ==> !str_lt(#[trigger] s[j], #[trigger] s[i])
}

/// The entries of a directory listing that are YAML files, in listing
/// order.
pub open spec fn yaml_names(entries: Seq<Seq<char>>) -> Seq<Seq<char>>
    decreases entries.len(),
{
    if entries.len() == 0 {
        Seq::empty()
    } else if is_yaml_ext(spec_extension(entries.last())) {
        yaml_names(entries.drop_last()).push(entries.last())
    } else {
        yaml_names(entries.drop_last())
    }
}

/// `names` joined with `, `.
pub open spec fn comma_list(names: Seq<Seq<char>>) -> Seq<char>
    decreases names.len(),
{
    if names.len() == 0 {
        Seq::empty()
    } else if names.len() == 1 {
        names[0]
    } else {
        comma_list(names.drop_last()) + ", "@ + names.last()
    }
}

/// The YAML files of a directory listing, sorted by name.
pub fn sorted_yaml_names(entries: &Vec<String>) -> (r: Vec<String>)
    ensures
        strings_view(r@).to_multiset() == yaml_names(strings_view(entries@)).to_multiset(),
        names_sorted(strings_view(r@)),
{
    let ghost ev = strings_view(entries@);
    let mut found: Vec<String> = Vec::new();
    let mut keys: Vec<Vec<char>> = Vec::new();
    let mut k: usize = 0;
    proof {
        lemma_str_lt_strict_total();
        assert(strings_view(found@) =~= Seq::<Seq<char>>::empty());
        assert(ev.take(0) =~= Seq::<Seq<char>>::empty());
    }
    while k < entries.len()
        invariant
            ev == strings_view(entries@),
            k <= ev.len(),
            keys@.len() == found@.len(),
            forall|i: int| 0 <= i < found@.len() ==> (#[trigger] keys@[i])@ == found@[i]@,
            strings_view(found@).to_multiset() == yaml_names(ev.take(k as int)).to_multiset(),
            names_sorted(strings_view(found@)),
            strict_total_str(),
        decreases ev.len() - k,
    {
        proof {
            assert(ev.take(k + 1).drop_last() =~= ev.take(k as int));
            assert(ev.take(k + 1).last() == ev[k as int]);
            assert(ev[k as int] == entries@[k as int]@);
        }
        let name = &entries[k];
        if is_yaml_file(name.as_str()) {
            let key = chars_of(name.as_str());
            let mut p: usize = 0;
            while p < keys.len()
                invariant
                    keys@.len() == found@.len(),
                    p <= keys@.len(),
                    key@ == name@,
                    forall|i: int| 0 <= i < found@.len() ==> (#[trigger] keys@[i])@ == found@[i]@,
                    forall|j: int| 0 <= j < p ==> !str_lt(name@, #[trigger] found@[j]@),
                ensures
                    p <= keys@.len(),
                    forall|j: int| 0 <= j < p ==> !str_lt(name@, #[trigger] found@[j]@),
                    p == keys@.len() || str_lt(name@, found@[p as int]@),
                decreases keys@.len() - p,
            {
                match compare_chars(&key, &keys[p]) {
                    Compared::Less => {
                        break;
                    },
                    _ => {
                        p = p + 1;
                    },
                }
            }
            let ghost old_found = strings_view(found@);
            let ghost old_keys = keys@;
            let ghost nv = name@;
            proof {
                assert forall|i: int, j: int| 0 <= i < j < old_found.len() + 1 implies !str_lt(
                    #[trigger] old_found.insert(p as int, nv)[j],
                    #[trigger] old_found.insert(p as int, nv)[i],
                ) by {
                    let o = old_found.insert(p as int, nv);
                    if j < p {
                        assert(o[i] == old_found[i] && o[j] == old_found[j]);
                    } else if j == p {
                        assert(o[i] == old_found[i] && o[j] == nv);
                        assert(old_found[i] == found@[i]@);
                    } else if i > p {
                        assert(o[i] == old_found[i - 1] && o[j] == old_found[j - 1]);
                    } else if i == p {
                        assert(o[i] == nv && o[j] == old_found[j - 1]);
                        assert(old_found[p as int] == found@[p as int]@);
                        lemma_str_lt_mixed(nv, old_found[p as int], old_found[j - 1]);
                    } else {
                        assert(o[i] == old_found[i] && o[j] == old_found[j - 1]);
                    }
                }
                vstd::seq_lib::to_multiset_insert(old_found, p as int, nv);
                vstd::seq_lib::to_multiset_build(yaml_names(ev.take(k as int)), nv);
            }
            let s = name.clone();
            keys.insert(p, key);
            found.insert(p, s);
            proof {
                assert(strings_view(found@) =~= old_found.insert(p as int, nv));
                assert forall|i: int| 0 <= i < found@.len() implies (#[trigger] keys@[i])@ == found@[i]@ by {
                    if i < p {
                        assert(keys@[i] == old_keys[i]);
                    } else if i > p {
                        assert(keys@[i] == old_keys[i - 1]);
                    }
                }
            }
        }
        k = k + 1;
    }
    proof {
        assert(ev.take(ev.len() as int) =~= ev);
    }
    found
}

pub open spec fn strict_total_str() -> bool {
    crate::order::strict_total(|a: Seq<char>, b: Seq<char>| str_lt(a, b))
}

/// A name strictly before `x` is strictly before every name not before `x`.
proof fn lemma_str_lt_mixed(a: Seq<char>, x: Seq<char>, y: Seq<char>)
    requires
        str_lt(a, x),
        x == y || !str_lt(y, x),
    ensures
        str_lt(a, y),
        !str_lt(y, a),
{
    lemma_str_lt_strict_total();
    let l = |p: Seq<char>, q: Seq<char>| str_lt(p, q);
    assert(l(a, x));
    if x != y {
        assert(l(x, y) || x == y || l(y, x));
        assert(l(x, y));
        assert(l(a, y));
    }
    if l(y, a) {
        assert(l(y, a) && l(a, y));
        assert(l(y, y));
    }
}

/// The message when a directory argument holds no `river.yaml`: the YAML
/// files it does hold, sorted, when there are any.
pub open spec fn spec_no_river_message(arg: Seq<char>, found: Seq<Seq<char>>) -> Seq<char> {
    if found.len() == 0 {
        "error: no river.yaml in `"@ + arg + "`"@
    } else {
        "error: no river.yaml in `"@ + arg + "`; found: "@ + comma_list(found)
    }
}

/// The message for a directory argument without a `river.yaml`, from the
/// names of the directory's entries.
pub fn no_river_message(arg: &str, entries: &Vec<String>) -> (m: String)
    ensures
        exists|found: Seq<Seq<char>>|
            #![trigger spec_no_river_message(arg@, found)]
            found.to_multiset() == yaml_names(strings_view(entries@)).to_multiset() && names_sorted(found)
                && m@ == spec_no_river_message(arg@, found),
{
    let found = sorted_yaml_names(entries);
    let ghost fv = strings_view(found@);
    let mut m = owned("error: no river.yaml in `");
    push_str(&mut m, arg);
    if found.len() > 0 {
        push_str(&mut m, "`; found: ");
        let mut i: usize = 0;
        let ghost start = m@;
        while i < found.len()
            invariant
                fv == strings_view(found@),
                0 < fv.len(),
                i <= fv.len(),
                m@ == start + comma_list(fv.take(i as int)),
            decreases fv.len() - i,
        {
            proof {
                assert(fv.take(i + 1).drop_last() =~= fv.take(i as int));
                assert(fv.take(i + 1).last() == found@[i as int]@);
            }
            if i > 0 {
                push_str(&mut m, ", ");
            } else {
                assert(fv.take(1) =~= seq![found@[0]@]);
            }
            push_str(&mut m, found[i].as_str());
            proof {
                if i == 0 {
                    assert(comma_list(fv.take(0)) =~= Seq::<char>::empty());
                }
            }
            i = i + 1;
            assert(m@ =~= start + comma_list(fv.take(i as int)));
        }
        assert(fv.take(fv.len() as int) =~= fv);
        assert(m@ =~= spec_no_river_message(arg@, fv));
    } else {
        push_str(&mut m, "`");
        assert(m@ =~= spec_no_river_message(arg@, fv));
    }
    m
}

/// The script a step is started as: its file name, since the step runs in
/// the directory of the river that listed it.
pub open spec fn spec_step_script(script: Seq<char>) -> Seq<char> {
    match spec_file_name(script) {
        Some(n) => n,
        None => script,
    }
}

/// The directory a step runs in: the river's directory, or `.` for a
/// river in the current directory.
pub open spec fn spec_step_dir(dir: Seq<char>) -> Seq<char> {
    if dir.len() == 0 {
        "."@
    } else {
        dir
    }
}

/// The script to start for a step and the directory to start it in.
pub fn step_invocation(step: &ResolvedStep) -> (r: (String, String))
    ensures
        r.0@ == spec_step_script(step.script@),
        r.1@ == spec_step_dir(step.dir@),
{
    let script = match file_name(step.script.as_str()) {
        Some(n) => n,
        None => step.script.clone(),
    };
    let dir = if step.dir.as_str().unicode_len() == 0 {
        owned(".")
    } else {
        step.dir.clone()
    };
    (script, dir)
}

/// The progress line printed before step `index` (from zero) of `total`.
pub open spec fn spec_progress_line(index: nat, total: nat, script: Seq<char>) -> Seq<char> {
    "["@ + decimal(index + 1) + "/"@ + decimal(total) + "] "@ + script
}

pub fn progress_line(index: usize, total: usize, script: &str) -> (s: String)
    requires
        index < usize::MAX,
    ensures
        s@ == spec_progress_line(index as nat, total as nat, script@),
{
    let mut s = owned("[");
    push_decimal(&mut s, index + 1);
    push_str(&mut s, "/");
    push_decimal(&mut s, total);
    push_str(&mut s, "] ");
    push_str(&mut s, script);
    s
}

/// The exit status after a step failed: the step's own status when it
/// fits in a byte, else 1.
pub open spec fn spec_failure_exit(code: Option<i32>) -> u8 {
    match code {
        Some(c) => if 0 <= c <= 255 {
            c as u8
        } else {
            1
        },
        None => 1,
    }
}

pub fn failure_exit(code: Option<i32>) -> (e: u8)
    ensures
        e == spec_failure_exit(code),
{
    match code {
        Some(c) => if 0 <= c && c <= 255 {
            c as u8
        } else {
            1
        },
        None => 1,
    }
}

/// What `riv run` does next: refuse to start, start step `i` (from zero),
/// stop with an exit status, or finish successfully.
#[derive(Debug, Clone, Copy, PartialEq, Eq, Structural)]
pub enum RunAction {
    Refuse,
    Start(usize),
    Stop(u8),
    Done,
}

/// How a started step ended: successfully, unsuccessfully with the
/// process's exit code (none when a signal ended it), or not at all,
/// because its interpreter could not be started.
#[derive(Debug, Clone, Copy, PartialEq, Eq, Structural)]
pub enum StepOutcome {
    Success,
    Failed(Option<i32>),
    NotStarted,
}

/// The first decision of a run: a river whose check finds errors is not
/// started unless the check is switched off; a river without steps is done
/// at once; otherwise its first step starts.
pub open spec fn spec_run_start(no_check: bool, errors: nat, total: nat) -> RunAction {
    if !no_check && errors > 0 {
        RunAction::Refuse
    } else if total == 0 {
        RunAction::Done
    } else {
        RunAction::Start(0)
    }
}

pub fn run_start(no_check: bool, errors: usize, total: usize) -> (a: RunAction)
    ensures
        a == spec_run_start(no_check, errors as nat, total as nat),
{
    if !no_check && errors > 0 {
        RunAction::Refuse
    } else if total == 0 {
        RunAction::Done
    } else {
        RunAction::Start(0)
    }
}

/// The decision after step `index` of `total` ended: the next step starts
/// after a success, the run is done after the last one, and the first step
/// that fails stops the run with its exit status (2 when it could not be
/// started at all).
pub open spec fn spec_after_step(index: nat, total: nat, o: StepOutcome) -> RunAction {
    match o {
        StepOutcome::Success => if index + 1 < total {
            RunAction::Start((index + 1) as usize)
        } else {
            RunAction::Done
        },
        StepOutcome::Failed(c) => RunAction::Stop(spec_failure_exit(c)),
        StepOutcome::NotStarted => RunAction::Stop(2),
    }
}

pub fn after_step(index: usize, total: usize, o: StepOutcome) -> (a: RunAction)
    requires
        index < total,
    ensures
        a == spec_after_step(index as nat, total as nat, o),
{
    match o {
        StepOutcome::Success => if index + 1 < total {
            RunAction::Start(index + 1)
        } else {
            RunAction::Done
        },
        StepOutcome::Failed(c) => RunAction::Stop(failure_exit(c)),
        StepOutcome::NotStarted => RunAction::Stop(2),
    }
}

/// The status a run stops with after a step ended as `o` without success.
pub open spec fn spec_stop_status(o: StepOutcome) -> u8 {
    match o {
        StepOutcome::Failed(c) => spec_failure_exit(c),
        StepOutcome::NotStarted => 2,
        StepOutcome::Success => 0,
    }
}

/// The action a run ends with when it is at step `i` and its steps end as
/// `outcomes` says, each decision made by `after_step`.
pub open spec fn spec_run_from(outcomes: Seq<StepOutcome>, i: nat) -> RunAction
    decreases outcomes.len() - i,
{
    if i >= outcomes.len() {
        RunAction::Done
    } else {
        match spec_after_step(i, outcomes.len(), outcomes[i as int]) {
            RunAction::Start(_) => spec_run_from(outcomes, i + 1),
            a => a,
        }
    }
}

/// The action a whole run ends with: `run_start`, then `after_step` after
/// each step.
pub open spec fn spec_run(no_check: bool, errors: nat, outcomes: Seq<StepOutcome>) -> RunAction {
    match spec_run_start(no_check, errors, outcomes.len()) {
        RunAction::Start(_) => spec_run_from(outcomes, 0),
        a => a,
    }
}

/// From step `i` on, the steps start in order: the run is done when each
/// of them succeeds, and otherwise stops at the first that does not, with
/// that step's status.
pub proof fn lemma_run_stops_at_first_failure(outcomes: Seq<StepOutcome>, i: nat)
    requires
        i <= outcomes.len(),
    ensures
        (forall|k: int| i <= k < outcomes.len() ==> outcomes[k] == StepOutcome::Success)
            ==> spec_run_from(outcomes, i) == RunAction::Done,
        forall|k: int|
            #![trigger outcomes[k]]
            i <= k < outcomes.len() && outcomes[k] != StepOutcome::Success && (forall|j: int|
                i <= j < k ==> outcomes[j] == StepOutcome::Success) ==> spec_run_from(outcomes, i)
                == RunAction::Stop(spec_stop_status(outcomes[k])),
    decreases outcomes.len() - i,
{
    if i < outcomes.len() {
        lemma_run_stops_at_first_failure(outcomes, i + 1);
        let o = outcomes[i as int];
        if o == StepOutcome::Success {
            assert forall|k: int|
                i <= k < outcomes.len() && outcomes[k] != StepOutcome::Success && (forall|j: int|
                    i <= j < k ==> outcomes[j] == StepOutcome::Success) implies spec_run_from(outcomes, i)
                == RunAction::Stop(spec_stop_status(outcomes[k])) by {
                assert(k != i);
                assert forall|j: int| i + 1 <= j < k implies outcomes[j] == StepOutcome::Success by {
                    assert(i <= j < k);
                }
            }
        } else {
            assert forall|k: int|
                i <= k < outcomes.len() && outcomes[k] != StepOutcome::Success && (forall|j: int|
                    i <= j < k ==> outcomes[j] == StepOutcome::Success) implies spec_run_from(outcomes, i)
                == RunAction::Stop(spec_stop_status(outcomes[k])) by {
                if k > i {
                    assert(outcomes[i as int] == StepOutcome::Success);
                }
            }
        }
    }
}

/// A river whose check finds errors is refused unless the check is
/// switched off; otherwise its run is done when every step succeeds and
/// stops at the first step that does not, with that step's status.
pub proof fn lemma_run_outcome(no_check: bool, errors: nat, outcomes: Seq<StepOutcome>)
    ensures
        !no_check && errors > 0 ==> spec_run(no_check, errors, outcomes) == RunAction::Refuse,
        (no_check || errors == 0) && (forall|k: int| 0 <= k < outcomes.len() ==> outcomes[k] == StepOutcome::Success)
            ==> spec_run(no_check, errors, outcomes) == RunAction::Done,
        forall|k: int|
            #![trigger outcomes[k]]
            (no_check || errors == 0) && 0 <= k < outcomes.len() && outcomes[k] != StepOutcome::Success && (forall|
                j: int,
            | 0 <= j < k ==> outcomes[j] == StepOutcome::Success) ==> spec_run(no_check, errors, outcomes)
                == RunAction::Stop(spec_stop_status(outcomes[k])),
{
    lemma_run_stops_at_first_failure(outcomes, 0);
}

pub open spec fn spec_refusal(river: Seq<char>) -> Seq<char> {
    "error: `"@ + river + "` does not check; refusing to run (use --no-check to override)"@
}

/// The message when a river that does not check is asked to run.
pub fn refusal(river: &str) -> (m: String)
    ensures
        m@ == spec_refusal(river@),
{
    let mut m = owned("error: `");
    push_str(&mut m, river);
    push_str(&mut m, "` does not check; refusing to run (use --no-check to override)");
    m
}

pub open spec fn spec_step_failed(script: Seq<char>, status: Seq<char>) -> Seq<char> {
    "error: step `"@ + script + "` failed with "@ + status
}

/// The message when a step ends unsuccessfully with `status`.
pub fn step_failed(script: &str, status: &str) -> (m: String)
    ensures
        m@ == spec_step_failed(script@, status@),
{
    let mut m = owned("error: step `");
    push_str(&mut m, script);
    push_str(&mut m, "` failed with ");
    push_str(&mut m, status);
    m
}

/// A printed check: the rendered diagnostics, the summary line of the
/// plain-text formats, and the exit status.
pub struct Report {
    pub body: Rendered,
    pub summary: Option<String>,
    pub exit: u8,
}

/// Whether a format ends with a summary line.
pub open spec fn spec_shows_summary(format: OutputFormat) -> bool {
    format == OutputFormat::Full || format == OutputFormat::Concise
}

/// A check result as the command line prints it; the exit status is 1
/// when there are errors.
pub fn report(result: &CheckResult, format: OutputFormat, src: &Sources) -> (r: Report)
    requires
        renderable(result.diagnostics@, src),
    ensures
        ({
            let v = crate::diagnostic::diagnostics_view(result.diagnostics@);
            let errors = count_severity(v, crate::diagnostic::Severity::Error);
            let warnings = count_severity(v, crate::diagnostic::Severity::Warning);
            &&& r.exit == (if errors > 0 {
                1u8
            } else {
                0u8
            })
            &&& match r.summary {
                Some(s) => spec_shows_summary(format) && s@ == spec_summary_line(
                    result.rivers@.len() as nat,
                    errors,
                    warnings,
                ),
                None => !spec_shows_summary(format),
            }
            &&& match (format, r.body) {
                (OutputFormat::Full, Rendered::Text(t)) => t@ == spec_full(result.diagnostics@, src),
                (OutputFormat::Concise, Rendered::Text(t)) => t@ == spec_concise(result.diagnostics@, src),
                (OutputFormat::Github, Rendered::Text(t)) => t@ == crate::render::spec_github(
                    result.diagnostics@,
                    src,
                ),
                (OutputFormat::Json, Rendered::Json(j)) => crate::render::json_diagnostics_view(j@)
                    == crate::render::json_diagnostics_spec(result.diagnostics@, src),
                _ => false,
            }
        }),
{
    let body = render_to_string(&result.diagnostics, format, src);
    let errors = result.error_count();
    let warnings = result.warning_count();
    let summary = match format {
        OutputFormat::Full | OutputFormat::Concise => Some(summary_line(result.rivers.len(), errors, warnings)),
        _ => None,
    };
    let exit = if errors > 0 {
        1
    } else {
        0
    };
    Report { body, summary, exit }
}

} // verus!
