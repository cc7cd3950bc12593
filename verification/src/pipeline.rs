//! River YAML model: loading, discovery, and recursive expansion into an
//! ordered list of Python steps. Cycle and missing-step problems are found
//! here during expansion and reported through the check context.

use vstd::prelude::*;

use crate::diagnostic::{
    diags_prefix, spec_started, AnnotationView, CheckContext, DiagnosticView, Severity, Span, SpanView,
    SubDiagnosticView, SubLevel,
};
use crate::facts::{first_key, queries_view, Facts, PipelineLoad, Query, QueryView};
use crate::order::{compare_comps, comps_view, lemma_path_lt_mixed, path_key, path_key_exec, path_lt, paths_sorted, Comp, Compared};
use crate::paths::{
    extension, join, parent, spec_extension, spec_join, spec_normalize, spec_parent,
};
use crate::rules::{cycle, invalid_pipeline, missing_step, RuleId};
use crate::text::{
    char_utf8_len, chars_of, owned, push_str, str_eq, utf8_size, lemma_utf8_size_push,
    TextRange,
};

pub use crate::paths::normalize;

verus! {

/// One river YAML document, as written.
#[derive(Debug, Clone)]
pub struct PipelineDoc {
    pub name: Option<String>,
    pub strict: bool,
    pub steps: Vec<String>,
}

/// A loaded river file: the parsed document plus enough source context to
/// point diagnostics at individual step lines.
#[derive(Debug, Clone)]
pub struct PipelineFile {
    pub path: String,
    pub source: String,
    pub doc: PipelineDoc,
}

/// A Python step after recursive expansion, in execution order.
#[derive(Debug, Clone)]
pub struct ResolvedStep {
    /// The `.py` file to run.
    pub script: String,
    /// Directory of the river YAML that listed this step; scripts run with
    /// this as their working directory, and artifact paths resolve against it.
    pub dir: String,
    /// Effective strictness: OR of `strict:` along the inclusion chain.
    pub strict: bool,
}

pub struct ResolvedStepView {
    pub script: Seq<char>,
    pub dir: Seq<char>,
    pub strict: bool,
}

impl ResolvedStep {
    pub fn duplicate(&self) -> (r: ResolvedStep)
        ensures
            r@ == self@,
    {
        ResolvedStep { script: self.script.clone(), dir: self.dir.clone(), strict: self.strict }
    }
}

impl View for ResolvedStep {
    type V = ResolvedStepView;

    open spec fn view(&self) -> ResolvedStepView {
        ResolvedStepView { script: self.script@, dir: self.dir@, strict: self.strict }
    }
}

pub open spec fn resolved_view(s: Seq<ResolvedStep>) -> Seq<ResolvedStepView> {
    s.map_values(|r: ResolvedStep| r@)
}

pub open spec fn strings_view(s: Seq<String>) -> Seq<Seq<char>> {
    s.map_values(|x: String| x@)
}

// ---------------------------------------------------------------------------
// Locating a step in the YAML source
// ---------------------------------------------------------------------------

/// Whether the text up to index `i` of `hay` opens a list item: spaces,
/// back to a `-` (block list), `[` or `,` (flow list).
pub open spec fn opened_by(hay: Seq<char>, i: int) -> bool
    decreases i + 1,
{
    if i < 0 || i >= hay.len() {
        false
    } else if hay[i] == ' ' || hay[i] == '\t' {
        opened_by(hay, i - 1)
    } else {
        hay[i] == '-' || hay[i] == '[' || hay[i] == ','
    }
}

pub open spec fn is_quote(c: char) -> bool {
    c == '"' || c == '\''
}

/// A list item may start at `k`: after its opener, and after a quote.
pub open spec fn item_opens(hay: Seq<char>, k: int) -> bool {
    if k > 0 && k <= hay.len() && is_quote(hay[k - 1]) {
        opened_by(hay, k - 2)
    } else {
        opened_by(hay, k - 1)
    }
}

/// A character that may follow a list item's text.
pub open spec fn closes_item(c: char) -> bool {
    c == '\n' || c == '\r' || c == ' ' || c == '\t' || c == ',' || c == ']' || is_quote(c) || c == '#'
}

/// `needle` is written at `k` of `hay` as a whole list item.
pub open spec fn item_at(hay: Seq<char>, needle: Seq<char>, k: int) -> bool {
    &&& 0 <= k
    &&& k + needle.len() <= hay.len()
    &&& hay.subrange(k, k + needle.len()) == needle
    &&& item_opens(hay, k)
    &&& (k + needle.len() == hay.len() || closes_item(hay[k + needle.len()]))
}

/// The first index at or after `from` where `needle` is written as a list
/// item of `hay`.
pub open spec fn find_from(hay: Seq<char>, needle: Seq<char>, from: int) -> Option<int>
    decreases hay.len() + 1 - from,
{
    if from < 0 || from + needle.len() > hay.len() {
        None
    } else if item_at(hay, needle, from) {
        Some(from)
    } else {
        find_from(hay, needle, from + 1)
    }
}

/// Byte range of the first list item of `source` written as `step`, when
/// it can be expressed with 32-bit offsets.
pub open spec fn spec_step_range(source: Seq<char>, step: Seq<char>) -> Option<TextRange> {
    match find_from(source, step, 0) {
        None => None,
        Some(k) => {
            let start = utf8_size(source.take(k));
            let len = utf8_size(step);
            if start + len <= u32::MAX {
                Some(TextRange { start: start as u32, end: (start + len) as u32 })
            } else {
                None
            }
        },
    }
}

/// Where a diagnostic about `step` of the river at `path` points.
pub open spec fn spec_step_span(path: Seq<char>, source: Seq<char>, step: Seq<char>) -> SpanView {
    SpanView { file: path, range: spec_step_range(source, step) }
}

proof fn lemma_find_from(hay: Seq<char>, needle: Seq<char>, from: int)
    requires
        0 <= from,
    ensures
        match find_from(hay, needle, from) {
            Some(k) => from <= k && item_at(hay, needle, k),
            None => true,
        },
    decreases hay.len() + 1 - from,
{
    if from + needle.len() <= hay.len() && !item_at(hay, needle, from) {
        lemma_find_from(hay, needle, from + 1);
    }
}

fn occurs_at(hay: &Vec<char>, needle: &Vec<char>, k: usize) -> (r: bool)
    requires
        k + needle@.len() <= hay@.len(),
    ensures
        r == (hay@.subrange(k as int, k + needle@.len()) == needle@),
{
    let hl = hay.len();
    let mut j: usize = 0;
    while j < needle.len()
        invariant
            hl == hay@.len(),
            k + needle@.len() <= hay@.len(),
            j <= needle@.len(),
            hay@.subrange(k as int, k + j) == needle@.take(j as int),
        decreases needle@.len() - j,
    {
        if hay[k + j] != needle[j] {
            assert(hay@.subrange(k as int, k + needle@.len())[j as int] != needle@[j as int]);
            return false;
        }
        j = j + 1;
        assert(hay@.subrange(k as int, k + j) =~= needle@.take(j as int));
    }
    assert(needle@.take(needle@.len() as int) =~= needle@);
    true
}

fn opened_by_exec(hay: &Vec<char>, end: usize) -> (r: bool)
    requires
        end <= hay@.len(),
    ensures
        r == opened_by(hay@, end - 1),
{
    let mut e = end;
    while e > 0
        invariant
            e <= end <= hay@.len(),
            opened_by(hay@, end - 1) == opened_by(hay@, e - 1),
        decreases e,
    {
        let c = hay[e - 1];
        if c == ' ' || c == '\t' {
            e = e - 1;
        } else {
            return c == '-' || c == '[' || c == ',';
        }
    }
    false
}

fn item_at_exec(hay: &Vec<char>, needle: &Vec<char>, k: usize) -> (r: bool)
    requires
        k + needle@.len() <= hay@.len(),
    ensures
        r == item_at(hay@, needle@, k as int),
{
    let hl = hay.len();
    if !occurs_at(hay, needle, k) {
        return false;
    }
    let opens = if k > 0 && (hay[k - 1] == '"' || hay[k - 1] == '\'') {
        k >= 2 && opened_by_exec(hay, k - 1)
    } else {
        opened_by_exec(hay, k)
    };
    if !opens {
        return false;
    }
    let after = k + needle.len();
    if after == hl {
        true
    } else {
        let c = hay[after];
        c == '\n' || c == '\r' || c == ' ' || c == '\t' || c == ',' || c == ']' || c == '"' || c == '\'' || c == '#'
    }
}

fn find_first(hay: &Vec<char>, needle: &Vec<char>) -> (r: Option<usize>)
    ensures
        r.is_some() ==> r.unwrap() + needle@.len() <= hay@.len(),
        match find_from(hay@, needle@, 0) {
            None => r.is_none(),
            Some(k) => r.is_some() && r.unwrap() == k,
        },
{
    proof {
        lemma_find_from(hay@, needle@, 0);
    }
    if needle.len() > hay.len() {
        return None;
    }
    let hl = hay.len();
    let last = hl - needle.len();
    let mut k: usize = 0;
    loop
        invariant
            hl == hay@.len(),
            last + needle@.len() == hay@.len(),
            k <= last,
            find_from(hay@, needle@, 0) == find_from(hay@, needle@, k as int),
        decreases last - k,
    {
        if item_at_exec(hay, needle, k) {
            return Some(k);
        }
        if k == last {
            assert(find_from(hay@, needle@, k + 1) == None::<int>);
            return None;
        }
        k = k + 1;
    }
}

/// Byte offset of the first `k` characters of `s`, when it fits 32 bits.
fn utf8_offset(s: &Vec<char>, k: usize) -> (r: Option<u32>)
    requires
        k <= s@.len(),
    ensures
        match r {
            Some(n) => n == utf8_size(s@.take(k as int)),
            None => utf8_size(s@.take(k as int)) > u32::MAX,
        },
{
    let mut total: u64 = 0;
    let mut i: usize = 0;
    while i < k
        invariant
            k <= s@.len(),
            i <= k,
            total == utf8_size(s@.take(i as int)),
            total <= u32::MAX,
        decreases k - i,
    {
        let c = s[i];
        proof {
            assert(s@.take(i + 1) =~= s@.take(i as int).push(c));
            lemma_utf8_size_push(s@.take(i as int), c);
        }
        total = total + char_utf8_len(c) as u64;
        i = i + 1;
        if total > 0xffff_ffff {
            proof {
                crate::text::lemma_utf8_size_monotone(s@, i as int, k as int);
            }
            return None;
        }
    }
    Some(total as u32)
}

impl PipelineFile {
    /// Byte range of `step` as written in the YAML source, for annotations.
    pub fn step_range(&self, step: &str) -> (r: Option<TextRange>)
        ensures
            r == spec_step_range(self.source@, step@),
    {
        let hay = chars_of(self.source.as_str());
        let needle = chars_of(step);
        match find_first(&hay, &needle) {
            None => None,
            Some(k) => {
                let start = utf8_offset(&hay, k);
                let len = utf8_offset(&needle, needle.len());
                assert(needle@.take(needle@.len() as int) =~= needle@);
                match (start, len) {
                    (Some(s), Some(l)) => {
                        if s as u64 + l as u64 <= 0xffff_ffff {
                            Some(TextRange::at(s, l))
                        } else {
                            None
                        }
                    },
                    _ => None,
                }
            },
        }
    }

    pub fn step_span(&self, step: &str) -> (s: Span)
        ensures
            s@ == spec_step_span(self.path@, self.source@, step@),
    {
        match self.step_range(step) {
            Some(range) => Span::new(self.path.clone(), range),
            None => Span::file_only(self.path.clone()),
        }
    }
}

// ---------------------------------------------------------------------------
// Loading
// ---------------------------------------------------------------------------

/// What a check has produced so far: resolved steps, diagnostics, and the
/// facts it found missing.
pub struct ExpState {
    pub steps: Seq<ResolvedStepView>,
    pub diags: Seq<DiagnosticView>,
    pub needs: Seq<QueryView>,
}

pub open spec fn push_opt(s: Seq<DiagnosticView>, d: Option<DiagnosticView>) -> Seq<DiagnosticView> {
    match d {
        Some(d) => s.push(d),
        None => s,
    }
}

pub open spec fn add_diag(st: ExpState, d: Option<DiagnosticView>) -> ExpState {
    ExpState { diags: push_opt(st.diags, d), ..st }
}

pub open spec fn add_need(st: ExpState, q: QueryView) -> ExpState {
    ExpState { needs: st.needs.push(q), ..st }
}

/// A diagnostic of `rule` at the level for `strict`, with the given parts.
pub open spec fn make_diag(
    rule: RuleId,
    strict: bool,
    message: Seq<char>,
    annotations: Seq<AnnotationView>,
    subs: Seq<SubDiagnosticView>,
) -> Option<DiagnosticView> {
    match spec_started(rule, strict) {
        Some(d) => Some(DiagnosticView { message, annotations, subs, ..d }),
        None => None,
    }
}

pub open spec fn primary_at(span: SpanView, label: Seq<char>) -> Seq<AnnotationView> {
    seq![AnnotationView { span, message: Some(label), is_primary: true }]
}

pub open spec fn unreadable_pipeline_diag(path: Seq<char>, err: Seq<char>) -> Option<DiagnosticView> {
    make_diag(
        RuleId::InvalidPipeline,
        false,
        "cannot read `"@ + path + "`: "@ + err,
        primary_at(SpanView { file: path, range: None }, "unreadable pipeline"@),
        Seq::empty(),
    )
}

pub open spec fn invalid_doc_diag(path: Seq<char>, err: Seq<char>) -> Option<DiagnosticView> {
    make_diag(
        RuleId::InvalidPipeline,
        false,
        "`"@ + path + "` is not a valid pipeline: "@ + err,
        primary_at(SpanView { file: path, range: None }, "invalid pipeline file"@),
        Seq::empty(),
    )
}

impl PipelineFile {
/// Turns the facts about the river YAML at `path` into a loaded file,
/// reporting unreadable and malformed files.
pub fn load(path: &str, facts: &Facts, ctx: &mut CheckContext) -> (r: Option<PipelineFile>)
    ensures
        match facts.spec_pipeline(path@) {
            None => r.is_none() && final(ctx)@ == old(ctx)@,
            Some(PipelineLoad::Unreadable(err)) => r.is_none() && final(ctx)@ == push_opt(
                old(ctx)@,
                unreadable_pipeline_diag(path@, err@),
            ),
            Some(PipelineLoad::Read { source, doc }) => match doc {
                Err(e) => r.is_none() && final(ctx)@ == push_opt(
                    old(ctx)@,
                    invalid_doc_diag(path@, e@),
                ),
                Ok(d) => r.is_some() && final(ctx)@ == old(ctx)@ && r.unwrap().path@ == path@
                    && r.unwrap().source@ == source@ && r.unwrap().doc.strict == d.strict
                    && opt_string_view(r.unwrap().doc.name) == opt_string_view(d.name)
                    && strings_view(r.unwrap().doc.steps@) == strings_view(d.steps@),
            },
        },
{
    match facts.pipeline(path) {
        None => None,
        Some(PipelineLoad::Unreadable(err)) => {
            let rule = invalid_pipeline();
            if let Some(b) = ctx.report(&rule, false) {
                let mut msg = owned("cannot read `");
                push_str(&mut msg, path);
                push_str(&mut msg, "`: ");
                push_str(&mut msg, err.as_str());
                b.message(msg).primary(Span::file_only(owned(path)), owned("unreadable pipeline")).emit(
                    ctx,
                );
            }
            None
        },
        Some(PipelineLoad::Read { source, doc }) => match doc {
            Err(e) => {
                let rule = invalid_pipeline();
                if let Some(b) = ctx.report(&rule, false) {
                    let mut msg = owned("`");
                    push_str(&mut msg, path);
                    push_str(&mut msg, "` is not a valid pipeline: ");
                    push_str(&mut msg, e.as_str());
                    b.message(msg).primary(
                        Span::file_only(owned(path)),
                        owned("invalid pipeline file"),
                    ).emit(ctx);
                }
                None
            },
            Ok(d) => Some(
                PipelineFile { path: owned(path), source: source.clone(), doc: copy_doc(d) },
            ),
        },
    }
}
}

fn copy_strings(v: &Vec<String>) -> (r: Vec<String>)
    ensures
        strings_view(r@) == strings_view(v@),
{
    let mut r: Vec<String> = Vec::new();
    let mut i: usize = 0;
    while i < v.len()
        invariant
            i <= v@.len(),
            strings_view(r@) == strings_view(v@).take(i as int),
        decreases v@.len() - i,
    {
        let ghost prev = r@;
        r.push(v[i].clone());
        assert(strings_view(r@) =~= strings_view(prev).push(v@[i as int]@));
        assert(strings_view(v@).take(i + 1) =~= strings_view(v@).take(i as int).push(
            strings_view(v@)[i as int],
        ));
        i = i + 1;
    }
    assert(strings_view(v@).take(v@.len() as int) =~= strings_view(v@));
    r
}

fn copy_doc(d: &PipelineDoc) -> (r: PipelineDoc)
    ensures
        r.strict == d.strict,
        opt_string_view(r.name) == opt_string_view(d.name),
        strings_view(r.steps@) == strings_view(d.steps@),
{
    PipelineDoc {
        name: match &d.name {
            Some(n) => Some(n.clone()),
            None => None,
        },
        strict: d.strict,
        steps: copy_strings(&d.steps),
    }
}

// ---------------------------------------------------------------------------
// Discovery
// ---------------------------------------------------------------------------

/// Directories the discovery walk does not enter: hidden ones, and build,
/// dependency and cache directories.
pub open spec fn spec_skip_dir(name: Seq<char>) -> bool {
    ||| (name.len() > 0 && name[0] == '.')
    ||| name == "target"@
    ||| name == "node_modules"@
    ||| name == "__pycache__"@
    ||| name == "venv"@
}

/// Whether the discovery walk skips a directory named `name`.
pub fn skip_dir(name: &str) -> (r: bool)
    ensures
        r == spec_skip_dir(name@),
{
    let chars = chars_of(name);
    if chars.len() > 0 && chars[0] == '.' {
        return true;
    }
    str_eq(name, "target") || str_eq(name, "node_modules") || str_eq(name, "__pycache__") || str_eq(
        name,
        "venv",
    )
}

/// Whether the discovery walk reads `path` as a candidate river: it has a
/// `.yaml` or `.yml` extension.
pub fn is_yaml_file(path: &str) -> (r: bool)
    ensures
        r == is_yaml_ext(spec_extension(path@)),
{
    let ext = extension(path);
    ext_is(&ext, "yaml") || ext_is(&ext, "yml")
}

/// The kind of YAML value found under a key of a document.
#[derive(Debug, Clone, Copy, PartialEq, Eq, Structural)]
pub enum StepsShape {
    Sequence,
    Mapping,
    Other,
}

/// What `serde_yaml` parses `source` into, as far as discovery looks: the
/// kind of the value under `key` in the top-level mapping. None when the
/// text does not parse, is not a mapping, or has no such key.
pub uninterp spec fn yaml_entry_shape(source: Seq<char>, key: Seq<char>) -> Option<StepsShape>;

/// Parses `source` with `serde_yaml::from_str` into a `serde_yaml::Value`,
/// looks `key` up with `Mapping::get` when the value is a mapping, and
/// tells the found value's variant apart. The contract claims only that
/// the answer is a function of the text and the key; which texts parse,
/// and to what, is not stated.
#[verifier::external_body]
fn entry_shape(source: &str, key: &str) -> (r: Option<StepsShape>)
    ensures
        r == yaml_entry_shape(source@, key@),
{
    match serde_yaml::from_str::<serde_yaml::Value>(source) {
        Ok(serde_yaml::Value::Mapping(m)) => match m.get(key) {
            Some(serde_yaml::Value::Sequence(_)) => Some(StepsShape::Sequence),
            Some(serde_yaml::Value::Mapping(_)) => Some(StepsShape::Mapping),
            Some(_) => Some(StepsShape::Other),
            None => None,
        },
        _ => None,
    }
}

/// A YAML text is a river when it is a mapping whose `steps` is a list.
pub open spec fn spec_looks_like_pipeline(source: Seq<char>) -> bool {
    yaml_entry_shape(source, "steps"@) == Some(StepsShape::Sequence)
}

/// Whether a document whose `steps` entry has `shape` is a river: only a
/// list of steps makes one.
pub fn shape_is_river(shape: Option<StepsShape>) -> (r: bool)
    ensures
        r == (shape == Some(StepsShape::Sequence)),
{
    match shape {
        Some(StepsShape::Sequence) => true,
        _ => false,
    }
}

/// Whether a YAML text is a river: a mapping whose `steps` is a list.
/// Other YAML files (CI configurations and the like) are not.
pub fn looks_like_pipeline(source: &str) -> (r: bool)
    ensures
        r == spec_looks_like_pipeline(source@),
{
    shape_is_river(entry_shape(source, "steps"))
}

/// A file the walk found is a river when it has a YAML extension and its
/// text looks like a river.
pub open spec fn is_discovered(c: (String, String)) -> bool {
    is_yaml_ext(spec_extension(c.0@)) && spec_looks_like_pipeline(c.1@)
}

/// The rivers among the walk's `(path, text)` pairs, in walk order.
pub open spec fn spec_discovered(c: Seq<(String, String)>) -> Seq<Seq<char>>
    decreases c.len(),
{
    if c.len() == 0 {
        Seq::empty()
    } else if is_discovered(c.last()) {
        spec_discovered(c.drop_last()).push(c.last().0@)
    } else {
        spec_discovered(c.drop_last())
    }
}

/// The first index from `from` on whose path comes after `x`, or the
/// length of `s`.
pub open spec fn first_after(s: Seq<Seq<char>>, x: Seq<char>, from: int) -> int
    decreases s.len() - from,
{
    if from < 0 || from >= s.len() {
        s.len() as int
    } else if path_lt(x, s[from]) {
        from
    } else {
        first_after(s, x, from + 1)
    }
}

/// `s` sorted by path, stably: each path goes after every earlier one it
/// does not come before.
pub open spec fn path_sort(s: Seq<Seq<char>>) -> Seq<Seq<char>>
    decreases s.len(),
{
    if s.len() == 0 {
        Seq::empty()
    } else {
        let sorted = path_sort(s.drop_last());
        sorted.insert(first_after(sorted, s.last(), 0), s.last())
    }
}

proof fn lemma_first_after(s: Seq<Seq<char>>, x: Seq<char>, from: int, p: int)
    requires
        0 <= from <= p <= s.len(),
        forall|j: int| from <= j < p ==> !path_lt(x, #[trigger] s[j]),
        p == s.len() || path_lt(x, s[p]),
    ensures
        first_after(s, x, from) == p,
    decreases p - from,
{
    if from < p {
        lemma_first_after(s, x, from + 1, p);
    }
}

/// The rivers among the files a directory walk found, as `(path, text)`
/// pairs, sorted by path for deterministic output. Paths that compare
/// equal keep their walk order.
pub fn discover_pipelines(candidates: &Vec<(String, String)>) -> (found: Vec<String>)
    ensures
        strings_view(found@) == path_sort(spec_discovered(candidates@)),
        strings_view(found@).to_multiset() == spec_discovered(candidates@).to_multiset(),
        paths_sorted(strings_view(found@)),
{
    let mut found: Vec<String> = Vec::new();
    let mut keys: Vec<Vec<Comp>> = Vec::new();
    let mut k: usize = 0;
    proof {
        assert(strings_view(found@) =~= Seq::<Seq<char>>::empty());
        assert(candidates@.take(0) =~= Seq::<(String, String)>::empty());
    }
    while k < candidates.len()
        invariant
            k <= candidates@.len(),
            keys@.len() == found@.len(),
            forall|i: int| 0 <= i < found@.len() ==> comps_view(#[trigger] keys@[i]@) == path_key(found@[i]@),
            strings_view(found@).to_multiset() == spec_discovered(candidates@.take(k as int)).to_multiset(),
            strings_view(found@) == path_sort(spec_discovered(candidates@.take(k as int))),
            paths_sorted(strings_view(found@)),
        decreases candidates@.len() - k,
    {
        proof {
            assert(candidates@.take(k + 1).drop_last() =~= candidates@.take(k as int));
            assert(candidates@.take(k + 1).last() == candidates@[k as int]);
        }
        let (path, source) = (&candidates[k].0, &candidates[k].1);
        if is_yaml_file(path.as_str()) && looks_like_pipeline(source.as_str()) {
            let key = path_key_exec(path.as_str());
            let mut p: usize = 0;
            while p < keys.len()
                invariant
                    keys@.len() == found@.len(),
                    p <= keys@.len(),
                    comps_view(key@) == path_key(path@),
                    forall|i: int| 0 <= i < found@.len() ==> comps_view(#[trigger] keys@[i]@) == path_key(found@[i]@),
                    forall|j: int| 0 <= j < p ==> !path_lt(path@, #[trigger] found@[j]@),
                ensures
                    p <= keys@.len(),
                    forall|j: int| 0 <= j < p ==> !path_lt(path@, #[trigger] found@[j]@),
                    p == keys@.len() || path_lt(path@, found@[p as int]@),
                decreases keys@.len() - p,
            {
                match compare_comps(&key, &keys[p]) {
                    Compared::Less => {
                        break;
                    },
                    _ => {
                        p = p + 1;
                    },
                }
            }
            let ghost old_found = strings_view(found@);
            let ghost old_keys = keys@;
            let ghost pv = path@;
            proof {
                assert forall|i: int, j: int| 0 <= i < j < old_found.len() + 1 implies !path_lt(
                    #[trigger] old_found.insert(p as int, pv)[j],
                    #[trigger] old_found.insert(p as int, pv)[i],
                ) by {
                    let o = old_found.insert(p as int, pv);
                    if j < p {
                        assert(o[i] == old_found[i] && o[j] == old_found[j]);
                    } else if j == p {
                        assert(o[i] == old_found[i] && o[j] == pv);
                        assert(old_found[i] == found@[i]@);
                    } else if i > p {
                        assert(o[i] == old_found[i - 1] && o[j] == old_found[j - 1]);
                    } else if i == p {
                        assert(o[i] == pv && o[j] == old_found[j - 1]);
                        if j - 1 > p {
                            assert(!path_lt(old_found[j - 1], old_found[p as int]));
                        } else {
                            crate::order::lemma_path_lt_irreflexive(old_found[p as int]);
                        }
                        assert(old_found[p as int] == found@[p as int]@);
                        lemma_path_lt_mixed(pv, old_found[p as int], old_found[j - 1]);
                    } else {
                        assert(o[i] == old_found[i] && o[j] == old_found[j - 1]);
                    }
                }
                vstd::seq_lib::to_multiset_insert(old_found, p as int, pv);
                vstd::seq_lib::to_multiset_build(spec_discovered(candidates@.take(k as int)), pv);
                assert forall|j: int| 0 <= j < p implies !path_lt(pv, #[trigger] old_found[j]) by {
                    assert(old_found[j] == found@[j]@);
                }
                if p < old_found.len() {
                    assert(old_found[p as int] == found@[p as int]@);
                }
                lemma_first_after(old_found, pv, 0, p as int);
                let d = spec_discovered(candidates@.take(k + 1));
                assert(d.drop_last() == spec_discovered(candidates@.take(k as int)));
                assert(d.last() == pv);
            }
            let s = path.clone();
            keys.insert(p, key);
            found.insert(p, s);
            proof {
                assert(strings_view(found@) =~= old_found.insert(p as int, pv));
                assert forall|i: int| 0 <= i < found@.len() implies comps_view(#[trigger] keys@[i]@) == path_key(found@[i]@) by {
                    if i < p {
                        assert(keys@[i] == old_keys[i]);
                    } else if i > p {
                        assert(keys@[i] == old_keys[i - 1]);
                    }
                }
            }
        }
        k = k + 1;
    }
    proof {
        assert(candidates@.take(candidates@.len() as int) =~= candidates@);
    }
    found
}

// ---------------------------------------------------------------------------
// Expansion
// ---------------------------------------------------------------------------

pub open spec fn is_yaml_ext(e: Option<Seq<char>>) -> bool {
    e == Some("yaml"@) || e == Some("yml"@)
}

pub open spec fn is_py_ext(e: Option<Seq<char>>) -> bool {
    e == Some("py"@)
}

pub open spec fn cycle_diag(strict: bool, step_path: Seq<char>, step: Seq<char>, span: SpanView) -> Option<
    DiagnosticView,
> {
    make_diag(
        RuleId::Cycle,
        strict,
        "pipeline `"@ + step_path + "` includes itself via `"@ + step + "`"@,
        primary_at(span, "this step closes the cycle"@),
        Seq::empty(),
    )
}

pub open spec fn missing_diag(strict: bool, step_path: Seq<char>, span: SpanView) -> Option<
    DiagnosticView,
> {
    make_diag(
        RuleId::MissingStep,
        strict,
        "step `"@ + step_path + "` does not exist"@,
        primary_at(span, "listed here"@),
        Seq::empty(),
    )
}

pub open spec fn kind_diag(strict: bool, step: Seq<char>, span: SpanView) -> Option<DiagnosticView> {
    make_diag(
        RuleId::InvalidPipeline,
        strict,
        "step `"@ + step + "` is not a `.py` script or a `.yaml` pipeline"@,
        primary_at(span, "unsupported step kind"@),
        seq![
            SubDiagnosticView {
                level: SubLevel::Note,
                message: "steps are scripts in v1: a Python file or another pipeline"@,
            },
        ],
    )
}

/// How many loaded rivers in `s` are not on `stack`.
pub open spec fn count_unstacked(s: Seq<(String, PipelineLoad)>, stack: Seq<Seq<char>>) -> nat
    decreases s.len(),
{
    if s.len() == 0 {
        0
    } else {
        count_unstacked(s.drop_last(), stack) + if stack.contains(s.last().0@) {
            0nat
        } else {
            1nat
        }
    }
}

/// Rivers that can still be entered: the measure that makes expansion end.
pub open spec fn budget(facts: &Facts, stack: Seq<Seq<char>>) -> nat {
    count_unstacked(facts.pipelines@, stack)
}

pub proof fn lemma_count_push(s: Seq<(String, PipelineLoad)>, stack: Seq<Seq<char>>, y: Seq<char>)
    ensures
        count_unstacked(s, stack.push(y)) <= count_unstacked(s, stack),
        !stack.contains(y) && (exists|i: int| 0 <= i < s.len() && s[i].0@ == y) ==> count_unstacked(
            s,
            stack.push(y),
        ) < count_unstacked(s, stack),
    decreases s.len(),
{
    if s.len() > 0 {
        lemma_count_push(s.drop_last(), stack, y);
        if stack.contains(s.last().0@) {
            assert(stack.push(y).contains(s.last().0@)) by {
                let k = choose|k: int| 0 <= k < stack.len() && stack[k] == s.last().0@;
                assert(stack.push(y)[k] == s.last().0@);
            }
        }
        if !stack.contains(y) && (exists|i: int| 0 <= i < s.len() && s[i].0@ == y) {
            let i = choose|i: int| 0 <= i < s.len() && s[i].0@ == y;
            if i < s.len() - 1 {
                assert(s.drop_last()[i] == s[i]);
            } else {
                assert(stack.push(y)[stack.len() as int] == y);
            }
        }
    }
}

/// Expansion of the river at `yaml` (normalized first), inheriting
/// `inherited` strictness, while the rivers on `stack` are being expanded.
pub open spec fn exp_file(
    facts: &Facts,
    yaml: Seq<char>,
    inherited: bool,
    stack: Seq<Seq<char>>,
    st: ExpState,
) -> ExpState
    decreases budget(facts, stack), 1int,
{
    let path = spec_normalize(yaml);
    if stack.contains(path) {
        st
    } else {
        match facts.spec_pipeline(path) {
            None => add_need(st, QueryView::LoadPipeline(path)),
            Some(PipelineLoad::Unreadable(err)) => add_diag(st, unreadable_pipeline_diag(path, err@)),
            Some(PipelineLoad::Read { source, doc }) => match doc {
                Err(e) => add_diag(st, invalid_doc_diag(path, e@)),
                Ok(d) => {
                    proof {
                        crate::facts::lemma_first_key_from(facts.pipelines@, path, 0);
                        let i = first_key(facts.pipelines@, path).unwrap();
                        assert(facts.pipelines@[i].0@ == path);
                        lemma_count_push(facts.pipelines@, stack, path);
                    }
                    exp_steps(
                        facts,
                        path,
                        source@,
                        strings_view(d.steps@),
                        spec_parent(path),
                        inherited || d.strict,
                        stack.push(path),
                        0,
                        st,
                    )
                },
            },
        }
    }
}

/// Expansion of steps `i..` of the river at `yaml`.
pub open spec fn exp_steps(
    facts: &Facts,
    yaml: Seq<char>,
    source: Seq<char>,
    steps: Seq<Seq<char>>,
    dir: Seq<char>,
    strict: bool,
    stack: Seq<Seq<char>>,
    i: int,
    st: ExpState,
) -> ExpState
    decreases budget(facts, stack), steps.len() + 2 - i,
{
    if i < 0 || i >= steps.len() {
        st
    } else {
        let step = steps[i];
        let step_path = spec_normalize(spec_join(dir, step));
        let span = spec_step_span(yaml, source, step);
        let ext = spec_extension(step_path);
        let next = if is_yaml_ext(ext) {
            if stack.contains(step_path) {
                add_diag(st, cycle_diag(strict, step_path, step, span))
            } else {
                match facts.spec_is_file(step_path) {
                    None => add_need(st, QueryView::IsFile(step_path)),
                    Some(false) => add_diag(st, missing_diag(strict, step_path, span)),
                    Some(true) => exp_file(facts, step_path, strict, stack, st),
                }
            }
        } else if is_py_ext(ext) {
            match facts.spec_is_file(step_path) {
                None => add_need(st, QueryView::IsFile(step_path)),
                Some(false) => add_diag(st, missing_diag(strict, step_path, span)),
                Some(true) => ExpState {
                    steps: st.steps.push(ResolvedStepView { script: step_path, dir, strict }),
                    ..st
                },
            }
        } else {
            add_diag(st, kind_diag(strict, step, span))
        };
        exp_steps(facts, yaml, source, steps, dir, strict, stack, i + 1, next)
    }
}

/// `st` followed by the diagnostics and needs of `r`, with the steps of `r`.
pub open spec fn exp_after(st: ExpState, r: ExpState) -> ExpState {
    ExpState { steps: r.steps, diags: st.diags + r.diags, needs: st.needs + r.needs }
}

/// `st` without its diagnostics and needs.
pub open spec fn exp_bare(st: ExpState) -> ExpState {
    ExpState { steps: st.steps, diags: Seq::empty(), needs: Seq::empty() }
}

proof fn lemma_exp_after_bare(st: ExpState)
    ensures
        exp_after(st, exp_bare(st)) == st,
{
    assert(st.diags + Seq::<DiagnosticView>::empty() =~= st.diags);
    assert(st.needs + Seq::<QueryView>::empty() =~= st.needs);
}

proof fn lemma_exp_after_add(st: ExpState, d: Option<DiagnosticView>, q: QueryView)
    ensures
        add_diag(st, d) == exp_after(st, add_diag(exp_bare(st), d)),
        add_need(st, q) == exp_after(st, add_need(exp_bare(st), q)),
{
    assert(push_opt(st.diags, d) =~= st.diags + push_opt(Seq::empty(), d));
    assert(st.needs.push(q) =~= st.needs + Seq::<QueryView>::empty().push(q));
    assert(st.needs + Seq::<QueryView>::empty() =~= st.needs);
    assert(st.diags + Seq::<DiagnosticView>::empty() =~= st.diags);
}

/// Expansion only appends: what it adds does not depend on the
/// diagnostics and needs it starts from.
pub proof fn lemma_exp_file_frame(facts: &Facts, yaml: Seq<char>, inherited: bool, stack: Seq<Seq<char>>, st: ExpState)
    ensures
        exp_file(facts, yaml, inherited, stack, st) == exp_after(
            st,
            exp_file(facts, yaml, inherited, stack, exp_bare(st)),
        ),
    decreases budget(facts, stack), 1int,
{
    let path = spec_normalize(yaml);
    lemma_exp_after_bare(st);
    if !stack.contains(path) {
        match facts.spec_pipeline(path) {
            None => lemma_exp_after_add(st, None, QueryView::LoadPipeline(path)),
            Some(PipelineLoad::Unreadable(err)) => lemma_exp_after_add(
                st,
                unreadable_pipeline_diag(path, err@),
                QueryView::LoadPipeline(path),
            ),
            Some(PipelineLoad::Read { source, doc }) => match doc {
                Err(e) => lemma_exp_after_add(st, invalid_doc_diag(path, e@), QueryView::LoadPipeline(path)),
                Ok(d) => {
                    crate::facts::lemma_first_key_from(facts.pipelines@, path, 0);
                    let i = first_key(facts.pipelines@, path).unwrap();
                    assert(facts.pipelines@[i].0@ == path);
                    lemma_count_push(facts.pipelines@, stack, path);
                    lemma_exp_steps_frame(
                        facts,
                        path,
                        source@,
                        strings_view(d.steps@),
                        spec_parent(path),
                        inherited || d.strict,
                        stack.push(path),
                        0,
                        st,
                    );
                },
            },
        }
    }
}

pub proof fn lemma_exp_steps_frame(
    facts: &Facts,
    yaml: Seq<char>,
    source: Seq<char>,
    steps: Seq<Seq<char>>,
    dir: Seq<char>,
    strict: bool,
    stack: Seq<Seq<char>>,
    i: int,
    st: ExpState,
)
    ensures
        exp_steps(facts, yaml, source, steps, dir, strict, stack, i, st) == exp_after(
            st,
            exp_steps(facts, yaml, source, steps, dir, strict, stack, i, exp_bare(st)),
        ),
    decreases budget(facts, stack), steps.len() + 2 - i,
{
    lemma_exp_after_bare(st);
    if 0 <= i < steps.len() {
        let st0 = exp_bare(st);
        let step = steps[i];
        let step_path = spec_normalize(spec_join(dir, step));
        let span = spec_step_span(yaml, source, step);
        let ext = spec_extension(step_path);
        let next = if is_yaml_ext(ext) {
            if stack.contains(step_path) {
                add_diag(st, cycle_diag(strict, step_path, step, span))
            } else {
                match facts.spec_is_file(step_path) {
                    None => add_need(st, QueryView::IsFile(step_path)),
                    Some(false) => add_diag(st, missing_diag(strict, step_path, span)),
                    Some(true) => exp_file(facts, step_path, strict, stack, st),
                }
            }
        } else if is_py_ext(ext) {
            match facts.spec_is_file(step_path) {
                None => add_need(st, QueryView::IsFile(step_path)),
                Some(false) => add_diag(st, missing_diag(strict, step_path, span)),
                Some(true) => ExpState {
                    steps: st.steps.push(ResolvedStepView { script: step_path, dir, strict }),
                    ..st
                },
            }
        } else {
            add_diag(st, kind_diag(strict, step, span))
        };
        let next0 = if is_yaml_ext(ext) {
            if stack.contains(step_path) {
                add_diag(st0, cycle_diag(strict, step_path, step, span))
            } else {
                match facts.spec_is_file(step_path) {
                    None => add_need(st0, QueryView::IsFile(step_path)),
                    Some(false) => add_diag(st0, missing_diag(strict, step_path, span)),
                    Some(true) => exp_file(facts, step_path, strict, stack, st0),
                }
            }
        } else if is_py_ext(ext) {
            match facts.spec_is_file(step_path) {
                None => add_need(st0, QueryView::IsFile(step_path)),
                Some(false) => add_diag(st0, missing_diag(strict, step_path, span)),
                Some(true) => ExpState {
                    steps: st0.steps.push(ResolvedStepView { script: step_path, dir, strict }),
                    ..st0
                },
            }
        } else {
            add_diag(st0, kind_diag(strict, step, span))
        };
        lemma_exp_after_add(st, cycle_diag(strict, step_path, step, span), QueryView::IsFile(step_path));
        lemma_exp_after_add(st, missing_diag(strict, step_path, span), QueryView::IsFile(step_path));
        lemma_exp_after_add(st, kind_diag(strict, step, span), QueryView::IsFile(step_path));
        if is_yaml_ext(ext) && !stack.contains(step_path) && facts.spec_is_file(step_path) == Some(true) {
            lemma_exp_file_frame(facts, step_path, strict, stack, st);
        }
        assert(next == exp_after(st, next0));
        assert(exp_steps(facts, yaml, source, steps, dir, strict, stack, i, st) == exp_steps(
            facts,
            yaml,
            source,
            steps,
            dir,
            strict,
            stack,
            i + 1,
            next,
        ));
        assert(exp_steps(facts, yaml, source, steps, dir, strict, stack, i, st0) == exp_steps(
            facts,
            yaml,
            source,
            steps,
            dir,
            strict,
            stack,
            i + 1,
            next0,
        ));
        lemma_exp_steps_frame(facts, yaml, source, steps, dir, strict, stack, i + 1, next);
        lemma_exp_steps_frame(facts, yaml, source, steps, dir, strict, stack, i + 1, next0);
        assert(exp_bare(next) == exp_bare(next0));
        let x = exp_steps(facts, yaml, source, steps, dir, strict, stack, i + 1, exp_bare(next));
        assert(st.diags + next0.diags + x.diags =~= st.diags + (next0.diags + x.diags));
        assert(st.needs + next0.needs + x.needs =~= st.needs + (next0.needs + x.needs));
    }
}

/// A listed step that names a `.py` script, or a river not already being
/// expanded, which does not exist adds no step and exactly one
/// `missing-step` error, "step `q` does not exist", at the step as listed
/// and labelled "listed here"; the steps after it are still expanded.
pub proof fn lemma_missing_step_reported(
    facts: &Facts,
    yaml: Seq<char>,
    source: Seq<char>,
    steps: Seq<Seq<char>>,
    dir: Seq<char>,
    strict: bool,
    stack: Seq<Seq<char>>,
    i: int,
    st: ExpState,
)
    requires
        0 <= i < steps.len(),
        ({
            let q = spec_normalize(spec_join(dir, steps[i]));
            &&& is_py_ext(spec_extension(q)) || (is_yaml_ext(spec_extension(q)) && !stack.contains(q))
            &&& facts.spec_is_file(q) == Some(false)
        }),
    ensures
        ({
            let q = spec_normalize(spec_join(dir, steps[i]));
            let span = spec_step_span(yaml, source, steps[i]);
            let d = DiagnosticView {
                rule: RuleId::MissingStep,
                rule_name: crate::rules::spec_rule_name(RuleId::MissingStep),
                severity: Severity::Error,
                message: "step `"@ + q + "` does not exist"@,
                annotations: primary_at(span, "listed here"@),
                subs: Seq::empty(),
            };
            exp_steps(facts, yaml, source, steps, dir, strict, stack, i, st) == exp_steps(
                facts,
                yaml,
                source,
                steps,
                dir,
                strict,
                stack,
                i + 1,
                ExpState { diags: st.diags.push(d), ..st },
            )
        }),
{
    reveal_strlit("py");
    reveal_strlit("yaml");
    reveal_strlit("yml");
    assert("py"@.len() != "yaml"@.len() && "py"@.len() != "yml"@.len());
}

/// A listed river that is already being expanded (it includes itself,
/// directly or through other rivers) is not entered again: it adds no step
/// and exactly one `cycle` error, "pipeline `q` includes itself via `t`",
/// at the step as listed; the steps after it are still expanded.
pub proof fn lemma_cycle_step_reported(
    facts: &Facts,
    yaml: Seq<char>,
    source: Seq<char>,
    steps: Seq<Seq<char>>,
    dir: Seq<char>,
    strict: bool,
    stack: Seq<Seq<char>>,
    i: int,
    st: ExpState,
)
    requires
        0 <= i < steps.len(),
        is_yaml_ext(spec_extension(spec_normalize(spec_join(dir, steps[i])))),
        stack.contains(spec_normalize(spec_join(dir, steps[i]))),
    ensures
        ({
            let q = spec_normalize(spec_join(dir, steps[i]));
            let span = spec_step_span(yaml, source, steps[i]);
            let d = DiagnosticView {
                rule: RuleId::Cycle,
                rule_name: crate::rules::spec_rule_name(RuleId::Cycle),
                severity: Severity::Error,
                message: "pipeline `"@ + q + "` includes itself via `"@ + steps[i] + "`"@,
                annotations: primary_at(span, "this step closes the cycle"@),
                subs: Seq::empty(),
            };
            exp_steps(facts, yaml, source, steps, dir, strict, stack, i, st) == exp_steps(
                facts,
                yaml,
                source,
                steps,
                dir,
                strict,
                stack,
                i + 1,
                ExpState { diags: st.diags.push(d), ..st },
            )
        }),
{
}

/// A river that is being expanded is never entered again: expanding it
/// once more changes nothing.
pub proof fn lemma_no_reentry(facts: &Facts, yaml: Seq<char>, inherited: bool, stack: Seq<Seq<char>>, st: ExpState)
    requires
        stack.contains(spec_normalize(yaml)),
    ensures
        exp_file(facts, yaml, inherited, stack, st) == st,
{
}

/// A listed step that is neither a `.py` script nor a `.yaml` or `.yml`
/// river adds no step and exactly one `invalid-pipeline` error, "step `t`
/// is not a `.py` script or a `.yaml` pipeline", labelled "unsupported step
/// kind" and with one note; the steps after it are still expanded.
pub proof fn lemma_unsupported_step_reported(
    facts: &Facts,
    yaml: Seq<char>,
    source: Seq<char>,
    steps: Seq<Seq<char>>,
    dir: Seq<char>,
    strict: bool,
    stack: Seq<Seq<char>>,
    i: int,
    st: ExpState,
)
    requires
        0 <= i < steps.len(),
        !is_py_ext(spec_extension(spec_normalize(spec_join(dir, steps[i])))),
        !is_yaml_ext(spec_extension(spec_normalize(spec_join(dir, steps[i])))),
    ensures
        ({
            let span = spec_step_span(yaml, source, steps[i]);
            let d = DiagnosticView {
                rule: RuleId::InvalidPipeline,
                rule_name: crate::rules::spec_rule_name(RuleId::InvalidPipeline),
                severity: Severity::Error,
                message: "step `"@ + steps[i] + "` is not a `.py` script or a `.yaml` pipeline"@,
                annotations: primary_at(span, "unsupported step kind"@),
                subs: seq![
                    SubDiagnosticView {
                        level: SubLevel::Note,
                        message: "steps are scripts in v1: a Python file or another pipeline"@,
                    },
                ],
            };
            exp_steps(facts, yaml, source, steps, dir, strict, stack, i, st) == exp_steps(
                facts,
                yaml,
                source,
                steps,
                dir,
                strict,
                stack,
                i + 1,
                ExpState { diags: st.diags.push(d), ..st },
            )
        }),
{
}

/// `r` extends `st`: the steps and diagnostics of `st` come first,
/// unchanged; when `strict` holds, every step after them is strict.
pub open spec fn extends_strict(st: ExpState, r: ExpState, strict: bool) -> bool {
    &&& diags_prefix(st.diags, r.diags)
    &&& st.steps.len() <= r.steps.len()
    &&& r.steps.take(st.steps.len() as int) == st.steps
    &&& strict ==> forall|i: int| st.steps.len() <= i < r.steps.len() ==> (#[trigger] r.steps[i]).strict
}

proof fn lemma_extends_trans(a: ExpState, b: ExpState, c: ExpState, strict: bool)
    requires
        extends_strict(a, b, strict),
        extends_strict(b, c, strict),
    ensures
        extends_strict(a, c, strict),
{
    assert(c.steps.take(a.steps.len() as int) =~= c.steps.take(b.steps.len() as int).take(a.steps.len() as int));
    if strict {
        assert forall|i: int| a.steps.len() <= i < c.steps.len() implies (#[trigger] c.steps[i]).strict by {
            if i < b.steps.len() {
                assert(c.steps.take(b.steps.len() as int)[i] == c.steps[i]);
                assert(b.steps[i].strict);
            }
        }
    }
}

/// Strictness is inherited: expanding a river under a strict parent gives
/// only strict steps, and earlier steps are left as they were.
pub proof fn lemma_strict_inherited(
    facts: &Facts,
    yaml: Seq<char>,
    inherited: bool,
    stack: Seq<Seq<char>>,
    st: ExpState,
)
    ensures
        extends_strict(st, exp_file(facts, yaml, inherited, stack, st), inherited),
    decreases budget(facts, stack), 1int,
{
    let path = spec_normalize(yaml);
    assert(st.steps.take(st.steps.len() as int) =~= st.steps);
    if !stack.contains(path) {
        match facts.spec_pipeline(path) {
            Some(PipelineLoad::Read { source, doc }) => match doc {
                Ok(d) => {
                    crate::facts::lemma_first_key_from(facts.pipelines@, path, 0);
                    let i = first_key(facts.pipelines@, path).unwrap();
                    assert(facts.pipelines@[i].0@ == path);
                    lemma_count_push(facts.pipelines@, stack, path);
                    lemma_strict_inherited_steps(
                        facts,
                        path,
                        source@,
                        strings_view(d.steps@),
                        spec_parent(path),
                        inherited || d.strict,
                        stack.push(path),
                        0,
                        st,
                    );
                },
                Err(_) => {},
            },
            _ => {},
        }
    }
}

/// The steps `i..` of a river under strictness `strict` add only strict
/// steps when `strict` holds.
pub proof fn lemma_strict_inherited_steps(
    facts: &Facts,
    yaml: Seq<char>,
    source: Seq<char>,
    steps: Seq<Seq<char>>,
    dir: Seq<char>,
    strict: bool,
    stack: Seq<Seq<char>>,
    i: int,
    st: ExpState,
)
    ensures
        extends_strict(st, exp_steps(facts, yaml, source, steps, dir, strict, stack, i, st), strict),
    decreases budget(facts, stack), steps.len() + 2 - i,
{
    assert(st.steps.take(st.steps.len() as int) =~= st.steps);
    if 0 <= i < steps.len() {
        let step = steps[i];
        let step_path = spec_normalize(spec_join(dir, step));
        let span = spec_step_span(yaml, source, step);
        let ext = spec_extension(step_path);
        let next = if is_yaml_ext(ext) {
            if stack.contains(step_path) {
                add_diag(st, cycle_diag(strict, step_path, step, span))
            } else {
                match facts.spec_is_file(step_path) {
                    None => add_need(st, QueryView::IsFile(step_path)),
                    Some(false) => add_diag(st, missing_diag(strict, step_path, span)),
                    Some(true) => exp_file(facts, step_path, strict, stack, st),
                }
            }
        } else if is_py_ext(ext) {
            match facts.spec_is_file(step_path) {
                None => add_need(st, QueryView::IsFile(step_path)),
                Some(false) => add_diag(st, missing_diag(strict, step_path, span)),
                Some(true) => ExpState {
                    steps: st.steps.push(ResolvedStepView { script: step_path, dir, strict }),
                    ..st
                },
            }
        } else {
            add_diag(st, kind_diag(strict, step, span))
        };
        if is_yaml_ext(ext) && !stack.contains(step_path) && facts.spec_is_file(step_path) == Some(true) {
            lemma_strict_inherited(facts, step_path, strict, stack, st);
        } else {
            assert(next.steps.take(st.steps.len() as int) =~= st.steps);
        }
        assert(extends_strict(st, next, strict));
        lemma_strict_inherited_steps(facts, yaml, source, steps, dir, strict, stack, i + 1, next);
        lemma_extends_trans(st, next, exp_steps(facts, yaml, source, steps, dir, strict, stack, i + 1, next), strict);
    }
}

/// Whether the river at `p` loads and says `strict: true`.
pub open spec fn river_strict(facts: &Facts, p: Seq<char>) -> bool {
    match facts.spec_pipeline(p) {
        Some(PipelineLoad::Read { doc: Ok(d), .. }) => d.strict,
        _ => false,
    }
}

/// The steps the river at `p` lists, when it loads.
pub open spec fn river_steps(facts: &Facts, p: Seq<char>) -> Option<Seq<Seq<char>>> {
    match facts.spec_pipeline(p) {
        Some(PipelineLoad::Read { doc: Ok(d), .. }) => Some(strings_view(d.steps@)),
        _ => None,
    }
}

/// Whether the river at `p` lists a step that resolves to `q`.
pub open spec fn river_lists(facts: &Facts, p: Seq<char>, q: Seq<char>) -> bool {
    &&& river_steps(facts, p) is Some
    &&& exists|k: int|
        0 <= k < river_steps(facts, p)->Some_0.len() && #[trigger] spec_normalize(
            spec_join(spec_parent(p), river_steps(facts, p)->Some_0[k]),
        ) == q
}

/// `c` is an inclusion chain: each river in it lists the next.
pub open spec fn is_chain(facts: &Facts, c: Seq<Seq<char>>) -> bool {
    &&& c.len() > 0
    &&& forall|t: int| 0 <= t < c.len() - 1 ==> river_lists(facts, #[trigger] c[t], c[t + 1])
}

/// Some river of the chain `c` says `strict: true`.
pub open spec fn chain_strict(facts: &Facts, c: Seq<Seq<char>>) -> bool {
    exists|t: int| 0 <= t < c.len() && river_strict(facts, #[trigger] c[t])
}

/// `s` is listed by the last river of an inclusion chain from `root`, and
/// is strict exactly when `inherited` holds or a river of that chain says
/// `strict: true`.
pub open spec fn strict_by_chain(facts: &Facts, root: Seq<char>, inherited: bool, s: ResolvedStepView) -> bool {
    exists|c: Seq<Seq<char>>|
        #[trigger] is_chain(facts, c) && c[0] == root && river_lists(facts, c.last(), s.script) && s.dir
            == spec_parent(c.last()) && s.strict == (inherited || chain_strict(facts, c))
}

/// Strictness comes from the inclusion chain: each step that expanding the
/// river at `yaml` adds is listed at the end of an inclusion chain from
/// that river, and is strict exactly when strictness was inherited or a
/// river on that chain says `strict: true`.
pub proof fn lemma_strict_by_chain(facts: &Facts, yaml: Seq<char>, inherited: bool, stack: Seq<Seq<char>>, st: ExpState)
    ensures
        forall|i: int|
            st.steps.len() <= i < exp_file(facts, yaml, inherited, stack, st).steps.len() ==> strict_by_chain(
                facts,
                spec_normalize(yaml),
                inherited,
                #[trigger] exp_file(facts, yaml, inherited, stack, st).steps[i],
            ),
    decreases budget(facts, stack), 1int,
{
    let path = spec_normalize(yaml);
    if !stack.contains(path) {
        match facts.spec_pipeline(path) {
            Some(PipelineLoad::Read { source, doc }) => match doc {
                Ok(d) => {
                    crate::facts::lemma_first_key_from(facts.pipelines@, path, 0);
                    let i = first_key(facts.pipelines@, path).unwrap();
                    assert(facts.pipelines@[i].0@ == path);
                    lemma_count_push(facts.pipelines@, stack, path);
                    assert(river_steps(facts, path) == Some(strings_view(d.steps@)));
                    assert(river_strict(facts, path) == d.strict);
                    lemma_chain_steps(
                        facts,
                        path,
                        source@,
                        strings_view(d.steps@),
                        spec_parent(path),
                        inherited || d.strict,
                        stack.push(path),
                        0,
                        st,
                        inherited,
                    );
                    let r = exp_steps(
                        facts,
                        path,
                        source@,
                        strings_view(d.steps@),
                        spec_parent(path),
                        inherited || d.strict,
                        stack.push(path),
                        0,
                        st,
                    );
                    assert(exp_file(facts, yaml, inherited, stack, st) == r);
                },
                Err(_) => {},
            },
            _ => {},
        }
    }
}

proof fn lemma_chain_steps(
    facts: &Facts,
    yaml: Seq<char>,
    source: Seq<char>,
    steps: Seq<Seq<char>>,
    dir: Seq<char>,
    strict: bool,
    stack: Seq<Seq<char>>,
    i: int,
    st: ExpState,
    inherited: bool,
)
    requires
        river_steps(facts, yaml) == Some(steps),
        dir == spec_parent(yaml),
        strict == (inherited || river_strict(facts, yaml)),
    ensures
        forall|j: int|
            st.steps.len() <= j < exp_steps(facts, yaml, source, steps, dir, strict, stack, i, st).steps.len()
                ==> strict_by_chain(
                facts,
                yaml,
                inherited,
                #[trigger] exp_steps(facts, yaml, source, steps, dir, strict, stack, i, st).steps[j],
            ),
    decreases budget(facts, stack), steps.len() + 2 - i,
{
    if 0 <= i < steps.len() {
        let step = steps[i];
        let step_path = spec_normalize(spec_join(dir, step));
        let span = spec_step_span(yaml, source, step);
        let ext = spec_extension(step_path);
        let next = if is_yaml_ext(ext) {
            if stack.contains(step_path) {
                add_diag(st, cycle_diag(strict, step_path, step, span))
            } else {
                match facts.spec_is_file(step_path) {
                    None => add_need(st, QueryView::IsFile(step_path)),
                    Some(false) => add_diag(st, missing_diag(strict, step_path, span)),
                    Some(true) => exp_file(facts, step_path, strict, stack, st),
                }
            }
        } else if is_py_ext(ext) {
            match facts.spec_is_file(step_path) {
                None => add_need(st, QueryView::IsFile(step_path)),
                Some(false) => add_diag(st, missing_diag(strict, step_path, span)),
                Some(true) => ExpState {
                    steps: st.steps.push(ResolvedStepView { script: step_path, dir, strict }),
                    ..st
                },
            }
        } else {
            add_diag(st, kind_diag(strict, step, span))
        };
        assert(spec_normalize(spec_join(spec_parent(yaml), river_steps(facts, yaml)->Some_0[i])) == step_path);
        assert(river_lists(facts, yaml, step_path));
        if is_yaml_ext(ext) && !stack.contains(step_path) && facts.spec_is_file(step_path) == Some(true) {
            lemma_strict_by_chain(facts, step_path, strict, stack, st);
            lemma_strict_inherited(facts, step_path, strict, stack, st);
            crate::paths::lemma_normalize_idempotent(spec_join(dir, step));
            assert forall|j: int| st.steps.len() <= j < next.steps.len() implies strict_by_chain(
                facts,
                yaml,
                inherited,
                #[trigger] next.steps[j],
            ) by {
                let s = next.steps[j];
                assert(strict_by_chain(facts, step_path, strict, s));
                let c0 = choose|c: Seq<Seq<char>>|
                    #[trigger] is_chain(facts, c) && c[0] == step_path && river_lists(facts, c.last(), s.script) && s.dir
                        == spec_parent(c.last()) && s.strict == (strict || chain_strict(facts, c));
                let c = seq![yaml] + c0;
                assert(c[0] == yaml);
                assert(c.last() == c0.last());
                assert forall|t: int| 0 <= t < c.len() - 1 implies river_lists(facts, #[trigger] c[t], c[t + 1]) by {
                    if t == 0 {
                        assert(c[1] == c0[0]);
                    } else {
                        assert(c[t] == c0[t - 1] && c[t + 1] == c0[t]);
                        assert(river_lists(facts, c0[t - 1], c0[(t - 1) + 1]));
                    }
                }
                assert(is_chain(facts, c));
                if chain_strict(facts, c0) {
                    let t = choose|t: int| 0 <= t < c0.len() && river_strict(facts, #[trigger] c0[t]);
                    assert(c[t + 1] == c0[t]);
                }
                if chain_strict(facts, c) {
                    let t = choose|t: int| 0 <= t < c.len() && river_strict(facts, #[trigger] c[t]);
                    if t > 0 {
                        assert(c[t] == c0[t - 1]);
                    }
                }
                if river_strict(facts, yaml) {
                    assert(c[0] == yaml);
                }
                assert(s.strict == (inherited || chain_strict(facts, c)));
            }
        } else if is_py_ext(ext) && !is_yaml_ext(ext) && facts.spec_is_file(step_path) == Some(true) {
            assert forall|j: int| st.steps.len() <= j < next.steps.len() implies strict_by_chain(
                facts,
                yaml,
                inherited,
                #[trigger] next.steps[j],
            ) by {
                let c = seq![yaml];
                assert(c.last() == yaml);
                assert(is_chain(facts, c));
                if river_strict(facts, yaml) {
                    assert(c[0] == yaml);
                }
                if chain_strict(facts, c) {
                    let t = choose|t: int| 0 <= t < c.len() && river_strict(facts, #[trigger] c[t]);
                    assert(t == 0);
                }
            }
        } else {
            assert(next.steps == st.steps);
        }
        lemma_chain_steps(facts, yaml, source, steps, dir, strict, stack, i + 1, next, inherited);
        lemma_strict_inherited_steps(facts, yaml, source, steps, dir, strict, stack, i + 1, next);
        let fin = exp_steps(facts, yaml, source, steps, dir, strict, stack, i + 1, next);
        assert forall|j: int| st.steps.len() <= j < fin.steps.len() implies strict_by_chain(
            facts,
            yaml,
            inherited,
            #[trigger] fin.steps[j],
        ) by {
            if j < next.steps.len() {
                assert(fin.steps.take(next.steps.len() as int)[j] == fin.steps[j]);
                assert(strict_by_chain(facts, yaml, inherited, next.steps[j]));
            }
        }
    }
}

proof fn lemma_steps_reach(
    facts: &Facts,
    yaml: Seq<char>,
    source: Seq<char>,
    steps: Seq<Seq<char>>,
    dir: Seq<char>,
    strict: bool,
    stack: Seq<Seq<char>>,
    i: int,
    m: int,
    st: ExpState,
) -> (s: ExpState)
    requires
        0 <= i <= m <= steps.len(),
    ensures
        exp_steps(facts, yaml, source, steps, dir, strict, stack, i, st) == exp_steps(
            facts,
            yaml,
            source,
            steps,
            dir,
            strict,
            stack,
            m,
            s,
        ),
    decreases m - i,
{
    if i == m {
        st
    } else {
        let step = steps[i];
        let step_path = spec_normalize(spec_join(dir, step));
        let span = spec_step_span(yaml, source, step);
        let ext = spec_extension(step_path);
        let next = if is_yaml_ext(ext) {
            if stack.contains(step_path) {
                add_diag(st, cycle_diag(strict, step_path, step, span))
            } else {
                match facts.spec_is_file(step_path) {
                    None => add_need(st, QueryView::IsFile(step_path)),
                    Some(false) => add_diag(st, missing_diag(strict, step_path, span)),
                    Some(true) => exp_file(facts, step_path, strict, stack, st),
                }
            }
        } else if is_py_ext(ext) {
            match facts.spec_is_file(step_path) {
                None => add_need(st, QueryView::IsFile(step_path)),
                Some(false) => add_diag(st, missing_diag(strict, step_path, span)),
                Some(true) => ExpState {
                    steps: st.steps.push(ResolvedStepView { script: step_path, dir, strict }),
                    ..st
                },
            }
        } else {
            add_diag(st, kind_diag(strict, step, span))
        };
        lemma_steps_reach(facts, yaml, source, steps, dir, strict, stack, i + 1, m, next)
    }
}

/// A river that includes itself is reported: when a step of a river leads
/// back to a river still being expanded (itself, or one that includes it),
/// the expansion gives the cycle diagnostic for that step.
pub proof fn lemma_cycle_is_reported(
    facts: &Facts,
    yaml: Seq<char>,
    source: Seq<char>,
    steps: Seq<Seq<char>>,
    dir: Seq<char>,
    strict: bool,
    stack: Seq<Seq<char>>,
    m: int,
    st: ExpState,
)
    requires
        0 <= m < steps.len(),
        is_yaml_ext(spec_extension(step_target(dir, steps[m]))),
        stack.contains(step_target(dir, steps[m])),
    ensures
        cycle_diag(strict, step_target(dir, steps[m]), steps[m], spec_step_span(yaml, source, steps[m])) is Some,
        exp_steps(facts, yaml, source, steps, dir, strict, stack, 0, st).diags.contains(
            cycle_diag(strict, step_target(dir, steps[m]), steps[m], spec_step_span(yaml, source, steps[m]))->Some_0,
        ),
{
    let s = lemma_steps_reach(facts, yaml, source, steps, dir, strict, stack, 0, m, st);
    let d = cycle_diag(strict, step_target(dir, steps[m]), steps[m], spec_step_span(yaml, source, steps[m]));
    let next = add_diag(s, d);
    assert(exp_steps(facts, yaml, source, steps, dir, strict, stack, m, s) == exp_steps(
        facts,
        yaml,
        source,
        steps,
        dir,
        strict,
        stack,
        m + 1,
        next,
    ));
    lemma_strict_inherited_steps(facts, yaml, source, steps, dir, strict, stack, m + 1, next);
    let fin = exp_steps(facts, yaml, source, steps, dir, strict, stack, m + 1, next);
    let at = s.diags.len() as int;
    assert(next.diags[at] == d->Some_0);
    assert(fin.diags[at] == d->Some_0);
}

/// Where step `s` of a river in `dir` points.
pub open spec fn step_target(dir: Seq<char>, s: Seq<char>) -> Seq<char> {
    spec_normalize(spec_join(dir, s))
}

/// Steps `i..` of a river are Python scripts that exist.
pub open spec fn existing_scripts_from(facts: &Facts, steps: Seq<Seq<char>>, dir: Seq<char>, i: int) -> bool {
    forall|m: int|
        i <= m < steps.len() ==> is_py_ext(spec_extension(#[trigger] step_target(dir, steps[m])))
            && facts.spec_is_file(step_target(dir, steps[m])) == Some(true)
}

/// The resolved steps a river in `dir` lists, from step `i` on.
pub open spec fn listed_scripts(steps: Seq<Seq<char>>, dir: Seq<char>, strict: bool, i: int) -> Seq<ResolvedStepView> {
    Seq::new(
        (steps.len() - i) as nat,
        |m: int| ResolvedStepView { script: step_target(dir, steps[i + m]), dir, strict },
    )
}

proof fn lemma_scripts_in_order(
    facts: &Facts,
    yaml: Seq<char>,
    source: Seq<char>,
    steps: Seq<Seq<char>>,
    dir: Seq<char>,
    strict: bool,
    stack: Seq<Seq<char>>,
    i: int,
    st: ExpState,
)
    requires
        0 <= i <= steps.len(),
        existing_scripts_from(facts, steps, dir, i),
    ensures
        exp_steps(facts, yaml, source, steps, dir, strict, stack, i, st) == (ExpState {
            steps: st.steps + listed_scripts(steps, dir, strict, i),
            ..st
        }),
    decreases steps.len() - i,
{
    if i == steps.len() {
        assert(st.steps + listed_scripts(steps, dir, strict, i) =~= st.steps);
    } else {
        let target = step_target(dir, steps[i]);
        assert(is_py_ext(spec_extension(target)) && facts.spec_is_file(target) == Some(true));
        assert(!is_yaml_ext(spec_extension(target))) by {
            reveal_strlit("py");
            reveal_strlit("yaml");
            reveal_strlit("yml");
            if "py"@ == "yaml"@ {
                assert("py"@.len() == "yaml"@.len());
            }
            if "py"@ == "yml"@ {
                assert("py"@[1] == "yml"@[1]);
            }
        }
        let next = ExpState {
            steps: st.steps.push(ResolvedStepView { script: target, dir, strict }),
            ..st
        };
        lemma_scripts_in_order(facts, yaml, source, steps, dir, strict, stack, i + 1, next);
        assert(next.steps + listed_scripts(steps, dir, strict, i + 1) =~= st.steps + listed_scripts(
            steps,
            dir,
            strict,
            i,
        ));
    }
}

/// Steps run in the order listed: a river whose steps are all Python
/// scripts that exist expands to exactly those scripts, in that order,
/// each run in the river's directory, and reports nothing.
pub proof fn lemma_steps_run_in_listed_order(
    facts: &Facts,
    yaml: Seq<char>,
    inherited: bool,
    source: String,
    doc: PipelineDoc,
    st: ExpState,
)
    requires
        facts.spec_pipeline(spec_normalize(yaml)) == Some(&PipelineLoad::Read { source, doc: Ok(doc) }),
        existing_scripts_from(facts, strings_view(doc.steps@), spec_parent(spec_normalize(yaml)), 0),
    ensures
        exp_file(facts, yaml, inherited, Seq::empty(), st) == (ExpState {
            steps: st.steps + listed_scripts(
                strings_view(doc.steps@),
                spec_parent(spec_normalize(yaml)),
                inherited || doc.strict,
                0,
            ),
            ..st
        }),
{
    let path = spec_normalize(yaml);
    crate::facts::lemma_first_key_from(facts.pipelines@, path, 0);
    let i = first_key(facts.pipelines@, path).unwrap();
    assert(facts.pipelines@[i].0@ == path);
    lemma_count_push(facts.pipelines@, Seq::empty(), path);
    lemma_scripts_in_order(
        facts,
        path,
        source@,
        strings_view(doc.steps@),
        spec_parent(path),
        inherited || doc.strict,
        Seq::<Seq<char>>::empty().push(path),
        0,
        st,
    );
}

pub open spec fn state_of(out: Seq<ResolvedStep>, diags: Seq<DiagnosticView>, needs: Seq<Query>) -> ExpState {
    ExpState { steps: resolved_view(out), diags, needs: queries_view(needs) }
}

pub fn contains_path(stack: &Vec<String>, p: &str) -> (r: bool)
    ensures
        r == strings_view(stack@).contains(p@),
{
    let mut i: usize = 0;
    while i < stack.len()
        invariant
            i <= stack@.len(),
            forall|j: int| 0 <= j < i ==> stack@[j]@ != p@,
        decreases stack@.len() - i,
    {
        if str_eq(stack[i].as_str(), p) {
            assert(strings_view(stack@)[i as int] == p@);
            return true;
        }
        i = i + 1;
    }
    assert(!strings_view(stack@).contains(p@)) by {
        if strings_view(stack@).contains(p@) {
            let k = choose|k: int| 0 <= k < stack@.len() && strings_view(stack@)[k] == p@;
            assert(stack@[k]@ == p@);
        }
    }
    false
}

pub fn push_need(needs: &mut Vec<Query>, q: Query)
    ensures
        queries_view(final(needs)@) == queries_view(old(needs)@).push(q@),
{
    let ghost qv = q@;
    needs.push(q);
    assert(queries_view(needs@) =~= queries_view(old(needs)@).push(qv));
}

fn emit_cycle(strict: bool, step_path: &str, step: &str, span: Span, ctx: &mut CheckContext)
    ensures
        final(ctx)@ == push_opt(old(ctx)@, cycle_diag(strict, step_path@, step@, span@)),
{
    let rule = cycle();
    if let Some(b) = ctx.report(&rule, strict) {
        let mut msg = owned("pipeline `");
        push_str(&mut msg, step_path);
        push_str(&mut msg, "` includes itself via `");
        push_str(&mut msg, step);
        push_str(&mut msg, "`");
        b.message(msg).primary(span, owned("this step closes the cycle")).emit(ctx);
    }
}

fn emit_missing(strict: bool, step_path: &str, span: Span, ctx: &mut CheckContext)
    ensures
        final(ctx)@ == push_opt(old(ctx)@, missing_diag(strict, step_path@, span@)),
{
    let rule = missing_step();
    if let Some(b) = ctx.report(&rule, strict) {
        let mut msg = owned("step `");
        push_str(&mut msg, step_path);
        push_str(&mut msg, "` does not exist");
        b.message(msg).primary(span, owned("listed here")).emit(ctx);
    }
}

fn emit_kind(strict: bool, step: &str, span: Span, ctx: &mut CheckContext)
    ensures
        final(ctx)@ == push_opt(old(ctx)@, kind_diag(strict, step@, span@)),
{
    let rule = invalid_pipeline();
    if let Some(b) = ctx.report(&rule, strict) {
        let mut msg = owned("step `");
        push_str(&mut msg, step);
        push_str(&mut msg, "` is not a `.py` script or a `.yaml` pipeline");
        let b = b.message(msg).primary(span, owned("unsupported step kind")).note(
            owned("steps are scripts in v1: a Python file or another pipeline"),
        );
        proof {
            assert(b@.subs =~= seq![
                SubDiagnosticView {
                    level: SubLevel::Note,
                    message: "steps are scripts in v1: a Python file or another pipeline"@,
                },
            ]);
        }
        b.emit(ctx);
    }
}

fn ext_is(e: &Option<String>, want: &str) -> (r: bool)
    ensures
        r == (opt_string_view(*e) == Some(want@)),
{
    match e {
        Some(x) => str_eq(x.as_str(), want),
        None => false,
    }
}

pub open spec fn opt_string_view(e: Option<String>) -> Option<Seq<char>> {
    match e {
        Some(x) => Some(x@),
        None => None,
    }
}

/// Recursively expand the river at `yaml` into `out`, reporting cycles,
/// missing steps, and unknown step kinds along the way.
fn expand_into(
    facts: &Facts,
    yaml: &str,
    inherited: bool,
    stack: &mut Vec<String>,
    out: &mut Vec<ResolvedStep>,
    needs: &mut Vec<Query>,
    ctx: &mut CheckContext,
)
    ensures
        strings_view(final(stack)@) == strings_view(old(stack)@),
        state_of(final(out)@, final(ctx)@, final(needs)@) == exp_file(
            facts,
            yaml@,
            inherited,
            strings_view(old(stack)@),
            state_of(old(out)@, old(ctx)@, old(needs)@),
        ),
    decreases budget(facts, strings_view(old(stack)@)), 1int,
{
    let path = normalize(yaml);
    if contains_path(stack, path.as_str()) {
        return;
    }
    if facts.pipeline(path.as_str()).is_none() {
        push_need(needs, Query::LoadPipeline(path.clone()));
        return;
    }
    let pipeline = match PipelineFile::load(path.as_str(), facts, ctx) {
        Some(p) => p,
        None => {
            return;
        },
    };
    let ghost stack0 = strings_view(stack@);
    let ghost st0 = state_of(out@, ctx@, needs@);
    let ghost steps_v = strings_view(pipeline.doc.steps@);
    proof {
        crate::facts::lemma_first_key_from(facts.pipelines@, path@, 0);
        let i = first_key(facts.pipelines@, path@).unwrap();
        assert(facts.pipelines@[i].0@ == path@);
        lemma_count_push(facts.pipelines@, stack0, path@);
    }
    stack.push(path.clone());
    assert(strings_view(stack@) =~= stack0.push(path@));
    let dir = parent(path.as_str());
    let strict = inherited || pipeline.doc.strict;
    let mut i: usize = 0;
    while i < pipeline.doc.steps.len()
        invariant
            i <= steps_v.len(),
            steps_v == strings_view(pipeline.doc.steps@),
            pipeline.path@ == path@,
            strings_view(stack@) == stack0.push(path@),
            budget(facts, stack0.push(path@)) < budget(facts, stack0),
            stack0 == strings_view(old(stack)@),
            exp_file(facts, yaml@, inherited, stack0, st0) == exp_steps(
                facts,
                path@,
                pipeline.source@,
                steps_v,
                dir@,
                strict,
                stack0.push(path@),
                i as int,
                state_of(out@, ctx@, needs@),
            ),
        decreases steps_v.len() - i,
    {
        let step = &pipeline.doc.steps[i];
        assert(step@ == steps_v[i as int]);
        let step_path = normalize(join(dir.as_str(), step.as_str()).as_str());
        let span = pipeline.step_span(step.as_str());
        let ext = extension(step_path.as_str());
        let ghost before = state_of(out@, ctx@, needs@);
        assert(opt_string_view(ext) == spec_extension(step_path@));
        assert(step_path@ == spec_normalize(spec_join(dir@, steps_v[i as int])));
        assert(span@ == spec_step_span(path@, pipeline.source@, steps_v[i as int]));
        if ext_is(&ext, "yaml") || ext_is(&ext, "yml") {
            if contains_path(stack, step_path.as_str()) {
                emit_cycle(strict, step_path.as_str(), step.as_str(), span, ctx);
            } else {
                match facts.is_file(step_path.as_str()) {
                    None => push_need(needs, Query::IsFile(step_path)),
                    Some(false) => emit_missing(strict, step_path.as_str(), span, ctx),
                    Some(true) => expand_into(facts, step_path.as_str(), strict, stack, out, needs, ctx),
                }
            }
        } else if ext_is(&ext, "py") {
            match facts.is_file(step_path.as_str()) {
                None => push_need(needs, Query::IsFile(step_path)),
                Some(false) => emit_missing(strict, step_path.as_str(), span, ctx),
                Some(true) => {
                    let ghost prev = out@;
                    let r = ResolvedStep { script: step_path, dir: dir.clone(), strict };
                    let ghost rv = r@;
                    out.push(r);
                    assert(resolved_view(out@) =~= resolved_view(prev).push(rv));
                },
            }
        } else {
            emit_kind(strict, step.as_str(), span, ctx);
        }
        assert(exp_steps(facts, path@, pipeline.source@, steps_v, dir@, strict, stack0.push(path@), i as int, before)
            == exp_steps(facts, path@, pipeline.source@, steps_v, dir@, strict, stack0.push(path@), i + 1, state_of(out@, ctx@, needs@)));
        i = i + 1;
    }
    let ghost full = stack@;
    stack.pop();
    assert(stack@ =~= full.drop_last());
    assert(strings_view(stack@) =~= strings_view(full).drop_last());
    assert(strings_view(full).drop_last() =~= stack0);
}

/// Recursively expand a root river into ordered Python steps, reporting
/// cycles, missing steps, and unknown step kinds along the way. Facts the
/// expansion needed but did not find are added to `needs`.
pub fn expand(root: &str, facts: &Facts, needs: &mut Vec<Query>, ctx: &mut CheckContext) -> (steps: Vec<
    ResolvedStep,
>)
    ensures
        state_of(steps@, final(ctx)@, final(needs)@) == exp_file(
            facts,
            root@,
            false,
            Seq::empty(),
            state_of(Seq::empty(), old(ctx)@, old(needs)@),
        ),
{
    let mut steps: Vec<ResolvedStep> = Vec::new();
    let mut stack: Vec<String> = Vec::new();
    assert(strings_view(stack@) =~= Seq::<Seq<char>>::empty());
    expand_into(facts, root, false, &mut stack, &mut steps, needs, ctx);
    steps
}

} // verus!
