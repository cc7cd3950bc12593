//! riv's static checker: rivers (pipeline YAMLs), the Python steps they list,
//! and the artifact-passing layer between scripts.

pub mod checks;
pub mod diagnostic;
pub mod rules;
pub mod text;
pub mod paths;
pub mod facts;
pub mod pipeline;
pub mod python;
pub mod order;
pub mod render;
pub mod cli;

use vstd::prelude::*;

use checks::{check_root, lemma_check_root_frame, root_diagnostics, spec_check_root};
use diagnostic::{diagnostics_view, CheckContext, Diagnostic, DiagnosticView, Severity};
use facts::{queries_view, Facts, Query, QueryView};
use pipeline::{expand, resolved_view, spec_discovered, state_of, strings_view, exp_file, ExpState, ResolvedStep};
use order::{lemma_dedup_views, is_views_dedup_sort_of, paths_sorted, view_key, views_sorted_unique,
    views_dedup_witnessed, lemma_view_key_severity,
    compare_keys, diag_key, diag_key_exec, first_with_key, is_dedup_sort_of, key_lt, key_view,
    lemma_key_irreflexive, lemma_key_transitive, sorted_unique, Compared, ExecKey,
};

verus! {

proof fn lemma_absent(out: Seq<Diagnostic>, p: int, kv: order::SortKey)
    requires
        sorted_unique(out),
        0 <= p <= out.len(),
        forall|j: int| 0 <= j < p ==> key_lt(diag_key(#[trigger] out[j]), kv),
        p == out.len() || key_lt(kv, diag_key(out[p])),
    ensures
        forall|i: int| 0 <= i < out.len() ==> diag_key(#[trigger] out[i]) != kv,
{
    assert forall|i: int| 0 <= i < out.len() implies diag_key(#[trigger] out[i]) != kv by {
        if i < p {
            assert(key_lt(diag_key(out[i]), kv));
            lemma_key_irreflexive(kv);
        } else {
            if i > p {
                assert(key_lt(diag_key(out[p]), diag_key(out[i])));
                lemma_key_transitive(kv, diag_key(out[p]), diag_key(out[i]));
            }
            lemma_key_irreflexive(kv);
        }
    }
}

proof fn lemma_insert_sorted(out: Seq<Diagnostic>, p: int, d: Diagnostic)
    requires
        sorted_unique(out),
        0 <= p <= out.len(),
        forall|j: int| 0 <= j < p ==> key_lt(diag_key(#[trigger] out[j]), diag_key(d)),
        p == out.len() || key_lt(diag_key(d), diag_key(out[p])),
    ensures
        sorted_unique(out.insert(p, d)),
{
    let o = out.insert(p, d);
    let kv = diag_key(d);
    assert forall|i: int| 0 <= i < o.len() implies #[trigger] o[i] == (if i < p {
        out[i]
    } else if i == p {
        d
    } else {
        out[i - 1]
    }) by {}
    assert forall|i: int, j: int| 0 <= i < j < o.len() implies key_lt(
        diag_key(#[trigger] o[i]),
        diag_key(#[trigger] o[j]),
    ) by {
        if j < p {
            assert(key_lt(diag_key(out[i]), diag_key(out[j])));
        } else if j == p {
            assert(key_lt(diag_key(out[i]), kv));
        } else if i < p {
            assert(key_lt(diag_key(out[i]), kv));
            if j - 1 == p {
                lemma_key_transitive(diag_key(out[i]), kv, diag_key(out[j - 1]));
            } else {
                assert(key_lt(diag_key(out[p]), diag_key(out[j - 1])));
                lemma_key_transitive(kv, diag_key(out[p]), diag_key(out[j - 1]));
                lemma_key_transitive(diag_key(out[i]), kv, diag_key(out[j - 1]));
            }
        } else if i == p {
            if j - 1 != p {
                assert(key_lt(diag_key(out[p]), diag_key(out[j - 1])));
                lemma_key_transitive(kv, diag_key(out[p]), diag_key(out[j - 1]));
            }
        } else {
            assert(key_lt(diag_key(out[i - 1]), diag_key(out[j - 1])));
        }
    }
}

/// Sort diagnostics by location, rule, message and severity, and keep only
/// the first of several with the same key.
pub fn dedup_and_sort(diagnostics: &mut Vec<Diagnostic>)
    ensures
        is_dedup_sort_of(final(diagnostics)@, old(diagnostics)@),
{
    let mut input: Vec<Diagnostic> = Vec::new();
    std::mem::swap(&mut input, diagnostics);
    let ghost inp = input@;
    assert(inp == old(diagnostics)@);
    let mut keys: Vec<ExecKey> = Vec::new();
    let mut out: Vec<Diagnostic> = Vec::new();
    // src[i]: the input index out[i] was taken from; pos[m]: where input m's
    // key sits in out.
    let ghost mut src: Seq<int> = Seq::empty();
    let ghost mut pos: Seq<int> = Seq::empty();
    let mut k: usize = 0;
    while k < input.len()
        invariant
            inp == input@,
            k <= inp.len(),
            keys@.len() == out@.len(),
            src.len() == out@.len(),
            pos.len() == k,
            forall|i: int| 0 <= i < out@.len() ==> key_view(#[trigger] keys@[i]) == diag_key(out@[i]),
            sorted_unique(out@),
            forall|i: int|
                #![trigger src[i]]
                0 <= i < out@.len() ==> 0 <= src[i] < k && first_with_key(inp, src[i]) && out@[i]@
                    == inp[src[i]]@ && out@[i].rule == inp[src[i]].rule,
            forall|m: int|
                #![trigger pos[m]]
                0 <= m < k ==> 0 <= pos[m] < out@.len() && diag_key(out@[pos[m]]) == diag_key(inp[m]),
        decreases inp.len() - k,
    {
        let key = diag_key_exec(&input[k]);
        let ghost kv = diag_key(inp[k as int]);
        let mut p: usize = 0;
        let mut dup = false;
        while p < keys.len()
            invariant_except_break
                !dup,
            invariant
                keys@.len() == out@.len(),
                p <= keys@.len(),
                key_view(key) == kv,
                forall|j: int| 0 <= j < p ==> key_lt(key_view(#[trigger] keys@[j]), kv),
            ensures
                p <= keys@.len(),
                forall|j: int| 0 <= j < p ==> key_lt(key_view(#[trigger] keys@[j]), kv),
                dup ==> p < keys@.len() && key_view(keys@[p as int]) == kv,
                !dup ==> p == keys@.len() || key_lt(kv, key_view(keys@[p as int])),
            decreases keys@.len() - p,
        {
            match compare_keys(&key, &keys[p]) {
                Compared::Greater => {
                    p = p + 1;
                },
                Compared::Equal => {
                    dup = true;
                    break;
                },
                Compared::Less => {
                    break;
                },
            }
        }
        let ghost old_out = out@;
        proof {
            assert forall|j: int| 0 <= j < p implies key_lt(diag_key(#[trigger] old_out[j]), kv) by {
                assert(key_view(keys@[j]) == diag_key(old_out[j]));
            }
        }
        if dup {
            proof {
                assert(key_view(keys@[p as int]) == diag_key(old_out[p as int]));
                pos = pos.push(p as int);
            }
        } else {
            let d = input[k].duplicate();
            proof {
                order::lemma_diag_key_congruent(d, inp[k as int]);
                if p < old_out.len() {
                    assert(key_view(keys@[p as int]) == diag_key(old_out[p as int]));
                }
                lemma_absent(old_out, p as int, kv);
                assert(first_with_key(inp, k as int)) by {
                    assert forall|m: int| 0 <= m < k implies diag_key(#[trigger] inp[m]) != diag_key(
                        inp[k as int],
                    ) by {
                        assert(diag_key(old_out[pos[m]]) == diag_key(inp[m]));
                    }
                }
                lemma_insert_sorted(old_out, p as int, d);
            }
            let ghost old_keys = keys@;
            let ghost old_src = src;
            let ghost old_pos = pos;
            keys.insert(p, key);
            out.insert(p, d);
            proof {
                src = old_src.insert(p as int, k as int);
                pos = old_pos.map_values(|j: int| if j >= p { j + 1 } else { j }).push(p as int);
                assert forall|i: int| 0 <= i < out@.len() implies #[trigger] out@[i] == (if i < p {
                    old_out[i]
                } else if i == p {
                    d
                } else {
                    old_out[i - 1]
                }) by {}
                assert forall|i: int| 0 <= i < out@.len() implies key_view(#[trigger] keys@[i]) == diag_key(
                    out@[i],
                ) by {
                    if i < p {
                        assert(keys@[i] == old_keys[i]);
                    } else if i > p {
                        assert(keys@[i] == old_keys[i - 1]);
                    }
                }
                assert forall|i: int| #![trigger src[i]] 0 <= i < out@.len() implies 0 <= src[i] < k + 1
                    && first_with_key(inp, src[i]) && out@[i]@ == inp[src[i]]@ && out@[i].rule
                    == inp[src[i]].rule by {
                    if i < p {
                        assert(src[i] == old_src[i]);
                    } else if i > p {
                        assert(src[i] == old_src[i - 1]);
                    }
                }
                assert forall|m: int| #![trigger pos[m]] 0 <= m < k + 1 implies 0 <= pos[m] < out@.len()
                    && diag_key(out@[pos[m]]) == diag_key(inp[m]) by {
                    if m < k {
                        assert(pos[m] == (if old_pos[m] >= p { old_pos[m] + 1 } else { old_pos[m] }));
                    }
                }
            }
        }
        k = k + 1;
    }
    proof {
        assert(order::dedup_witnessed(out@, inp, src, pos));
    }
    *diagnostics = out;
}


/// How many diagnostics in `s` have severity `sev`.
pub open spec fn count_severity(s: Seq<DiagnosticView>, sev: Severity) -> nat
    decreases s.len(),
{
    if s.len() == 0 {
        0
    } else {
        count_severity(s.drop_last(), sev) + if s.last().severity == sev {
            1nat
        } else {
            0nat
        }
    }
}

proof fn lemma_count_severity_bound(s: Seq<DiagnosticView>, sev: Severity)
    ensures
        count_severity(s, sev) <= s.len(),
    decreases s.len(),
{
    if s.len() > 0 {
        lemma_count_severity_bound(s.drop_last(), sev);
    }
}

/// Every diagnostic is either an error or a warning: the two counts add up
/// to the number of diagnostics.
pub proof fn lemma_counts_partition(s: Seq<DiagnosticView>)
    ensures
        count_severity(s, Severity::Error) + count_severity(s, Severity::Warning) == s.len(),
    decreases s.len(),
{
    if s.len() > 0 {
        lemma_counts_partition(s.drop_last());
    }
}

/// The keys of the diagnostics of `s` that have severity `sev`.
spec fn keys_with(s: Seq<DiagnosticView>, sev: Severity) -> Set<order::SortKey>
    decreases s.len(),
{
    if s.len() == 0 {
        Set::empty()
    } else {
        let rest = keys_with(s.drop_last(), sev);
        if s.last().severity == sev {
            rest.insert(view_key(s.last()))
        } else {
            rest
        }
    }
}

proof fn lemma_keys_with(s: Seq<DiagnosticView>, sev: Severity)
    ensures
        keys_with(s, sev).finite(),
        forall|i: int|
            0 <= i < s.len() && (#[trigger] s[i]).severity == sev ==> keys_with(s, sev).contains(view_key(s[i])),
        forall|k: order::SortKey|
            #[trigger] keys_with(s, sev).contains(k) ==> exists|i: int|
                0 <= i < s.len() && s[i].severity == sev && view_key(s[i]) == k,
    decreases s.len(),
{
    if s.len() > 0 {
        let t = s.drop_last();
        lemma_keys_with(t, sev);
        assert forall|i: int| 0 <= i < s.len() && (#[trigger] s[i]).severity == sev implies keys_with(
            s,
            sev,
        ).contains(view_key(s[i])) by {
            if i < s.len() - 1 {
                assert(s[i] == t[i]);
            }
        }
        assert forall|k: order::SortKey| #[trigger] keys_with(s, sev).contains(k) implies exists|i: int|
            0 <= i < s.len() && s[i].severity == sev && view_key(s[i]) == k by {
            if keys_with(t, sev).contains(k) {
                let i = choose|i: int| 0 <= i < t.len() && t[i].severity == sev && view_key(t[i]) == k;
                assert(s[i] == t[i]);
            } else {
                assert(s[s.len() - 1] == s.last());
            }
        }
    }
}

proof fn lemma_keys_with_count(s: Seq<DiagnosticView>, sev: Severity)
    requires
        views_sorted_unique(s),
    ensures
        keys_with(s, sev).len() == count_severity(s, sev),
    decreases s.len(),
{
    if s.len() > 0 {
        let t = s.drop_last();
        assert(views_sorted_unique(t)) by {
            assert forall|i: int, j: int| 0 <= i < j < t.len() implies key_lt(
                view_key(#[trigger] t[i]),
                view_key(#[trigger] t[j]),
            ) by {
                assert(t[i] == s[i] && t[j] == s[j]);
            }
        }
        lemma_keys_with_count(t, sev);
        lemma_keys_with(t, sev);
        let last = s.len() - 1;
        assert(s[last] == s.last());
        if s.last().severity == sev && keys_with(t, sev).contains(view_key(s.last())) {
            let i = choose|i: int| 0 <= i < t.len() && t[i].severity == sev && view_key(t[i]) == view_key(s.last());
            assert(t[i] == s[i]);
            assert(key_lt(view_key(s[i]), view_key(s[last])));
            lemma_key_irreflexive(view_key(s.last()));
        }
    }
}

/// Merging loses no error and no warning: when every diagnostic that one
/// check found is also among those a merged check found, the merged report
/// has at least as many diagnostics of each severity as that check's
/// report. Only diagnostics that agree in location, rule, message and
/// severity are merged.
pub proof fn lemma_merge_keeps_counts(
    merged: Seq<DiagnosticView>,
    all: Seq<DiagnosticView>,
    one: Seq<DiagnosticView>,
    part: Seq<DiagnosticView>,
    sev: Severity,
)
    requires
        is_views_dedup_sort_of(merged, all),
        is_views_dedup_sort_of(one, part),
        forall|j: int| 0 <= j < part.len() ==> all.contains(#[trigger] part[j]),
    ensures
        count_severity(one, sev) <= count_severity(merged, sev),
{
    let (src1, pos1) = choose|src: Seq<int>, pos: Seq<int>| views_dedup_witnessed(one, part, src, pos);
    let (src0, pos0) = choose|src: Seq<int>, pos: Seq<int>| views_dedup_witnessed(merged, all, src, pos);
    lemma_keys_with(one, sev);
    lemma_keys_with(merged, sev);
    lemma_keys_with_count(one, sev);
    lemma_keys_with_count(merged, sev);
    assert forall|k: order::SortKey| keys_with(one, sev).contains(k) implies keys_with(merged, sev).contains(k) by {
        let i = choose|i: int| 0 <= i < one.len() && one[i].severity == sev && view_key(one[i]) == k;
        let j = src1[i];
        assert(0 <= j < part.len() && one[i] == part[j]);
        assert(all.contains(part[j]));
        let m = choose|m: int| 0 <= m < all.len() && all[m] == part[j];
        let p = pos0[m];
        assert(0 <= p < merged.len() && view_key(merged[p]) == view_key(all[m]));
        lemma_view_key_severity(merged[p], all[m]);
        assert(merged[p].severity == sev);
    }
    vstd::set_lib::lemma_len_subset(keys_with(one, sev), keys_with(merged, sev));
}

/// The result of checking one or more root rivers.
pub struct CheckResult {
    /// The river YAMLs that were checked, in order.
    pub rivers: Vec<String>,
    pub diagnostics: Vec<Diagnostic>,
    /// Facts the check needed and did not have; while this is not empty the
    /// result is provisional: answer these and check again.
    pub needs: Vec<Query>,
}

fn count_of(diagnostics: &Vec<Diagnostic>, sev: Severity) -> (n: usize)
    ensures
        n == count_severity(diagnostics_view(diagnostics@), sev),
{
    let ghost v = diagnostics_view(diagnostics@);
    let mut n: usize = 0;
    let mut i: usize = 0;
    while i < diagnostics.len()
        invariant
            v == diagnostics_view(diagnostics@),
            i <= diagnostics@.len(),
            n == count_severity(v.take(i as int), sev),
        decreases diagnostics@.len() - i,
    {
        proof {
            assert(v.take(i + 1).drop_last() =~= v.take(i as int));
            lemma_count_severity_bound(v.take(i as int), sev);
        }
        if diagnostics[i].severity == sev {
            n = n + 1;
        }
        i = i + 1;
    }
    assert(v.take(diagnostics@.len() as int) =~= v);
    n
}

impl CheckResult {
    pub fn error_count(&self) -> (n: usize)
        ensures
            n == count_severity(diagnostics_view(self.diagnostics@), Severity::Error),
    {
        count_of(&self.diagnostics, Severity::Error)
    }

    pub fn warning_count(&self) -> (n: usize)
        ensures
            n == count_severity(diagnostics_view(self.diagnostics@), Severity::Warning),
    {
        count_of(&self.diagnostics, Severity::Warning)
    }
}

/// Diagnostics and needed facts after checking each of `rivers` in turn as
/// a root, before deduplication.
pub open spec fn spec_check_rivers(facts: &Facts, rivers: Seq<Seq<char>>) -> (
    Seq<DiagnosticView>,
    Seq<QueryView>,
)
    decreases rivers.len(),
{
    if rivers.len() == 0 {
        (Seq::empty(), Seq::empty())
    } else {
        let (d, n) = spec_check_rivers(facts, rivers.drop_last());
        spec_check_root(facts, rivers.last(), d, n)
    }
}

/// The diagnostics each of `rivers` finds on its own, one river after the
/// other.
pub open spec fn rivers_diagnostics(facts: &Facts, rivers: Seq<Seq<char>>) -> Seq<DiagnosticView>
    decreases rivers.len(),
{
    if rivers.len() == 0 {
        Seq::empty()
    } else {
        rivers_diagnostics(facts, rivers.drop_last()) + root_diagnostics(facts, rivers.last())
    }
}

/// Checking rivers in turn collects, before deduplication, exactly what
/// each of them finds on its own.
pub proof fn lemma_check_rivers_collects(facts: &Facts, rivers: Seq<Seq<char>>)
    ensures
        spec_check_rivers(facts, rivers).0 == rivers_diagnostics(facts, rivers),
    decreases rivers.len(),
{
    if rivers.len() > 0 {
        lemma_check_rivers_collects(facts, rivers.drop_last());
        let (d, n) = spec_check_rivers(facts, rivers.drop_last());
        lemma_check_root_frame(facts, rivers.last(), d, n);
    }
}

proof fn lemma_rivers_diagnostics_contain(facts: &Facts, rivers: Seq<Seq<char>>, idx: int)
    requires
        0 <= idx < rivers.len(),
    ensures
        forall|j: int|
            0 <= j < root_diagnostics(facts, rivers[idx]).len() ==> rivers_diagnostics(facts, rivers).contains(
                #[trigger] root_diagnostics(facts, rivers[idx])[j],
            ),
    decreases rivers.len(),
{
    let prev = rivers.drop_last();
    let all = rivers_diagnostics(facts, rivers);
    let p = rivers_diagnostics(facts, prev);
    let own = root_diagnostics(facts, rivers[idx]);
    if idx < rivers.len() - 1 {
        lemma_rivers_diagnostics_contain(facts, prev, idx);
        assert(prev[idx] == rivers[idx]);
        assert forall|j: int| 0 <= j < own.len() implies all.contains(#[trigger] own[j]) by {
            assert(p.contains(own[j]));
            let m = choose|m: int| 0 <= m < p.len() && p[m] == own[j];
            assert(all[m] == p[m]);
        }
    } else {
        assert(rivers.last() == rivers[idx]);
        assert forall|j: int| 0 <= j < own.len() implies all.contains(#[trigger] own[j]) by {
            assert(all[p.len() + j] == own[j]);
        }
    }
}

/// Checking several rivers together loses no error and no warning: for
/// each of them, the merged report has at least as many diagnostics of
/// each severity as the report of that river checked alone, when both
/// checks see the same facts.
pub proof fn lemma_check_rivers_keeps_counts(
    facts: &Facts,
    rivers: Seq<Seq<char>>,
    idx: int,
    merged: Seq<DiagnosticView>,
    alone: Seq<DiagnosticView>,
    sev: Severity,
)
    requires
        0 <= idx < rivers.len(),
        is_views_dedup_sort_of(merged, spec_check_rivers(facts, rivers).0),
        is_views_dedup_sort_of(alone, spec_check_rivers(facts, seq![rivers[idx]]).0),
    ensures
        count_severity(alone, sev) <= count_severity(merged, sev),
{
    let one = seq![rivers[idx]];
    lemma_check_rivers_collects(facts, rivers);
    lemma_check_rivers_collects(facts, one);
    assert(one.drop_last() =~= Seq::<Seq<char>>::empty());
    assert(rivers_diagnostics(facts, one.drop_last()) == Seq::<DiagnosticView>::empty());
    assert(one.last() == rivers[idx]);
    assert(rivers_diagnostics(facts, one) =~= root_diagnostics(facts, rivers[idx]));
    lemma_rivers_diagnostics_contain(facts, rivers, idx);
    let part = spec_check_rivers(facts, one).0;
    let all = spec_check_rivers(facts, rivers).0;
    assert forall|j: int| 0 <= j < part.len() implies all.contains(#[trigger] part[j]) by {
        assert(part[j] == root_diagnostics(facts, rivers[idx])[j]);
    }
    lemma_merge_keeps_counts(merged, all, alone, part, sev);
}

/// Check the given root rivers, deduplicating identical diagnostics: the
/// same problem found from a river checked standalone and as a sub-river is
/// reported once when both find it with the same location, rule, message
/// and severity; a sub-river's warning and the error its strict parent
/// makes of it are both kept.
pub fn check_rivers(rivers: Vec<String>, facts: &Facts) -> (r: CheckResult)
    ensures
        r.rivers@ == rivers@,
        is_views_dedup_sort_of(
            diagnostics_view(r.diagnostics@),
            spec_check_rivers(facts, strings_view(rivers@)).0,
        ),
        queries_view(r.needs@) == spec_check_rivers(facts, strings_view(rivers@)).1,
{
    let mut ctx = CheckContext::new();
    let mut needs: Vec<Query> = Vec::new();
    let ghost rv = strings_view(rivers@);
    let mut i: usize = 0;
    proof {
        assert(rv.take(0) =~= Seq::<Seq<char>>::empty());
        assert(queries_view(needs@) =~= Seq::<QueryView>::empty());
    }
    while i < rivers.len()
        invariant
            rv == strings_view(rivers@),
            i <= rivers@.len(),
            spec_check_rivers(facts, rv.take(i as int)) == (ctx@, queries_view(needs@)),
        decreases rivers@.len() - i,
    {
        proof {
            assert(rv.take(i + 1).drop_last() =~= rv.take(i as int));
        }
        check_root(rivers[i].as_str(), facts, &mut needs, &mut ctx);
        i = i + 1;
    }
    proof {
        assert(rv.take(rivers@.len() as int) =~= rv);
    }
    let mut diagnostics = ctx.into_diagnostics();
    let ghost raw = diagnostics@;
    dedup_and_sort(&mut diagnostics);
    proof {
        lemma_dedup_views(diagnostics@, raw);
    }
    CheckResult { rivers, diagnostics, needs }
}

/// Check a single root river.
pub fn check_river(yaml: &str, facts: &Facts) -> (r: CheckResult)
    ensures
        r.rivers@.len() == 1,
        r.rivers@[0]@ == yaml@,
        is_views_dedup_sort_of(diagnostics_view(r.diagnostics@), spec_check_rivers(facts, seq![yaml@]).0),
        queries_view(r.needs@) == spec_check_rivers(facts, seq![yaml@]).1,
{
    let mut rivers: Vec<String> = Vec::new();
    rivers.push(text::owned(yaml));
    assert(strings_view(rivers@) =~= seq![yaml@]);
    check_rivers(rivers, facts)
}

/// Discover every river among the files a directory walk found, as `(path,
/// text)` pairs: sorted by path, for deterministic output.
pub fn discover_rivers(candidates: &Vec<(String, String)>) -> (found: Vec<String>)
    ensures
        strings_view(found@) == pipeline::path_sort(spec_discovered(candidates@)),
        strings_view(found@).to_multiset() == spec_discovered(candidates@).to_multiset(),
        paths_sorted(strings_view(found@)),
{
    pipeline::discover_pipelines(candidates)
}

/// `riv check -r`: discover every river among the walk's files and check
/// each as a root.
pub fn check_all(candidates: &Vec<(String, String)>, facts: &Facts) -> (r: CheckResult)
    ensures
        strings_view(r.rivers@) == pipeline::path_sort(spec_discovered(candidates@)),
        strings_view(r.rivers@).to_multiset() == spec_discovered(candidates@).to_multiset(),
        paths_sorted(strings_view(r.rivers@)),
        is_views_dedup_sort_of(
            diagnostics_view(r.diagnostics@),
            spec_check_rivers(facts, strings_view(r.rivers@)).0,
        ),
        queries_view(r.needs@) == spec_check_rivers(facts, strings_view(r.rivers@)).1,
{
    check_rivers(discover_rivers(candidates), facts)
}

/// Resolve the ordered Python steps of a river for execution, with the
/// facts that were needed and missing. Structural diagnostics found during
/// expansion are discarded here: running implies checking first.
pub fn resolve_run_steps(yaml: &str, facts: &Facts) -> (r: (Vec<ResolvedStep>, Vec<Query>))
    ensures
        ({
            let e = exp_file(
                facts,
                yaml@,
                false,
                Seq::empty(),
                ExpState { steps: Seq::empty(), diags: Seq::empty(), needs: Seq::empty() },
            );
            resolved_view(r.0@) == e.steps && queries_view(r.1@) == e.needs
        }),
{
    let mut ctx = CheckContext::new();
    let mut needs: Vec<Query> = Vec::new();
    proof {
        assert(state_of(Seq::empty(), ctx@, needs@) == (ExpState {
            steps: Seq::empty(),
            diags: Seq::empty(),
            needs: Seq::empty(),
        })) by {
            assert(resolved_view(Seq::<ResolvedStep>::empty()) =~= Seq::empty());
            assert(queries_view(needs@) =~= Seq::empty());
        }
    }
    let steps = expand(yaml, facts, &mut needs, &mut ctx);
    (steps, needs)
}

} // verus!
