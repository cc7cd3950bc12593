//! Orders the checker sorts by: strings by code point, paths component by
//! component (the root before `.` before `..` before names), both
//! lexicographically.

use vstd::prelude::*;

use crate::diagnostic::{diagnostics_view, spec_primary_index, Diagnostic, DiagnosticView, Severity};
use crate::text::chars_of;
use crate::paths::{dot, dot_dot, is_absolute, segments, split_segments};

verus! {

/// Three-way comparison result.
#[derive(Debug, Clone, Copy, PartialEq, Eq, Structural)]
pub enum Compared {
    Less,
    Equal,
    Greater,
}

/// `lt` is a strict total order.
pub open spec fn strict_total<T>(lt: spec_fn(T, T) -> bool) -> bool {
    &&& forall|x: T| !#[trigger] lt(x, x)
    &&& forall|x: T, y: T, z: T| #[trigger] lt(x, y) && #[trigger] lt(y, z) ==> lt(x, z)
    &&& forall|x: T, y: T| #[trigger] lt(x, y) || x == y || #[trigger] lt(y, x)
}

/// Lexicographic order on sequences induced by `lt`; a proper prefix comes
/// first.
pub open spec fn lex_lt<T>(a: Seq<T>, b: Seq<T>, lt: spec_fn(T, T) -> bool) -> bool
    decreases a.len(),
{
    if a.len() == 0 {
        b.len() > 0
    } else if b.len() == 0 {
        false
    } else if lt(a[0], b[0]) {
        true
    } else if a[0] == b[0] {
        lex_lt(a.drop_first(), b.drop_first(), lt)
    } else {
        false
    }
}

pub proof fn lemma_lex_irreflexive<T>(a: Seq<T>, lt: spec_fn(T, T) -> bool)
    requires
        strict_total(lt),
    ensures
        !lex_lt(a, a, lt),
    decreases a.len(),
{
    if a.len() > 0 {
        assert(!lt(a[0], a[0]));
        lemma_lex_irreflexive(a.drop_first(), lt);
    }
}

pub proof fn lemma_lex_transitive<T>(a: Seq<T>, b: Seq<T>, c: Seq<T>, lt: spec_fn(T, T) -> bool)
    requires
        strict_total(lt),
        lex_lt(a, b, lt),
        lex_lt(b, c, lt),
    ensures
        lex_lt(a, c, lt),
    decreases a.len(),
{
    if a.len() > 0 && b.len() > 0 && c.len() > 0 {
        if lt(a[0], b[0]) {
            if lt(b[0], c[0]) {
                assert(lt(a[0], c[0]));
            }
        } else {
            if lt(b[0], c[0]) {
            } else {
                lemma_lex_transitive(a.drop_first(), b.drop_first(), c.drop_first(), lt);
            }
        }
    }
}

pub proof fn lemma_lex_total<T>(a: Seq<T>, b: Seq<T>, lt: spec_fn(T, T) -> bool)
    requires
        strict_total(lt),
    ensures
        lex_lt(a, b, lt) || a == b || lex_lt(b, a, lt),
    decreases a.len(),
{
    if a.len() == 0 && b.len() == 0 {
        assert(a =~= b);
    } else if a.len() > 0 && b.len() > 0 {
        assert(lt(a[0], b[0]) || a[0] == b[0] || lt(b[0], a[0]));
        if a[0] == b[0] {
            lemma_lex_total(a.drop_first(), b.drop_first(), lt);
            if a.drop_first() == b.drop_first() {
                assert(a =~= seq![a[0]] + a.drop_first());
                assert(b =~= seq![b[0]] + b.drop_first());
            }
        }
    }
}

pub proof fn lemma_lex_strict_total<T>(lt: spec_fn(T, T) -> bool)
    requires
        strict_total(lt),
    ensures
        strict_total(|a: Seq<T>, b: Seq<T>| lex_lt(a, b, lt)),
{
    let l = |a: Seq<T>, b: Seq<T>| lex_lt(a, b, lt);
    assert forall|x: Seq<T>| !#[trigger] l(x, x) by {
        lemma_lex_irreflexive(x, lt);
    }
    assert forall|x: Seq<T>, y: Seq<T>, z: Seq<T>| #[trigger] l(x, y) && #[trigger] l(y, z) implies l(
        x,
        z,
    ) by {
        lemma_lex_transitive(x, y, z, lt);
    }
    assert forall|x: Seq<T>, y: Seq<T>| #[trigger] l(x, y) || x == y || #[trigger] l(y, x) by {
        lemma_lex_total(x, y, lt);
    }
}

/// Code-point order on characters (the byte order of their UTF-8 forms).
pub open spec fn char_lt() -> spec_fn(char, char) -> bool {
    |x: char, y: char| (x as u32) < (y as u32)
}

pub proof fn lemma_char_lt_strict_total()
    ensures
        strict_total(char_lt()),
{
    assert forall|x: char, y: char| #[trigger] char_lt()(x, y) || x == y || #[trigger] char_lt()(
        y,
        x,
    ) by {
        if (x as u32) == (y as u32) {
            vstd::utf8::char_u32_cast(x, x as u32);
            vstd::utf8::char_u32_cast(y, y as u32);
            assert(x == y);
        }
    }
}

/// Code-point lexicographic order on strings.
pub open spec fn str_lt(a: Seq<char>, b: Seq<char>) -> bool {
    lex_lt(a, b, char_lt())
}

pub proof fn lemma_str_lt_strict_total()
    ensures
        strict_total(|a: Seq<char>, b: Seq<char>| str_lt(a, b)),
{
    lemma_char_lt_strict_total();
    lemma_lex_strict_total(char_lt());
    let l1 = |a: Seq<char>, b: Seq<char>| lex_lt(a, b, char_lt());
    let l2 = |a: Seq<char>, b: Seq<char>| str_lt(a, b);
    assert(l1 =~= l2);
}

/// One path component: its kind (0 root, 1 `.`, 2 `..`, 3 a name) and, for
/// names, its text.
pub struct PathComp {
    pub rank: u8,
    pub text: Seq<char>,
}

pub open spec fn comp_lt() -> spec_fn(PathComp, PathComp) -> bool {
    |x: PathComp, y: PathComp| x.rank < y.rank || (x.rank == y.rank && str_lt(x.text, y.text))
}

pub proof fn lemma_comp_lt_strict_total()
    ensures
        strict_total(comp_lt()),
{
    lemma_str_lt_strict_total();
    let s = |a: Seq<char>, b: Seq<char>| str_lt(a, b);
    assert forall|x: PathComp| !#[trigger] comp_lt()(x, x) by {
        assert(!s(x.text, x.text));
    }
    assert forall|x: PathComp, y: PathComp, z: PathComp| #[trigger] comp_lt()(x, y) && #[trigger] comp_lt()(
        y,
        z,
    ) implies comp_lt()(x, z) by {
        if x.rank == y.rank && y.rank == z.rank {
            assert(s(x.text, y.text) && s(y.text, z.text));
        }
    }
    assert forall|x: PathComp, y: PathComp| #[trigger] comp_lt()(x, y) || x == y || #[trigger] comp_lt()(
        y,
        x,
    ) by {
        if x.rank == y.rank {
            assert(s(x.text, y.text) || x.text == y.text || s(y.text, x.text));
        }
    }
}

/// The component a segment contributes, if any: empty segments and `.`
/// vanish, `..` is the parent component, anything else is a name.
pub open spec fn seg_comp(seg: Seq<char>) -> Option<PathComp> {
    if seg.len() == 0 || seg == dot() {
        None
    } else if seg == dot_dot() {
        Some(PathComp { rank: 2, text: Seq::empty() })
    } else {
        Some(PathComp { rank: 3, text: seg })
    }
}

pub open spec fn segs_key(segs: Seq<Seq<char>>) -> Seq<PathComp>
    decreases segs.len(),
{
    if segs.len() == 0 {
        Seq::empty()
    } else {
        match seg_comp(segs.last()) {
            Some(c) => segs_key(segs.drop_last()).push(c),
            None => segs_key(segs.drop_last()),
        }
    }
}

/// The components of a path: the root for an absolute path, `.` for a
/// relative path that starts with `./`, then its `..` and name components.
pub open spec fn path_key(p: Seq<char>) -> Seq<PathComp> {
    if is_absolute(p) {
        seq![PathComp { rank: 0, text: Seq::empty() }] + segs_key(segments(p))
    } else if segments(p).len() > 1 && segments(p)[0] == dot() {
        seq![PathComp { rank: 1, text: Seq::empty() }] + segs_key(segments(p))
    } else {
        segs_key(segments(p))
    }
}

/// Path order: component by component.
pub open spec fn path_lt(a: Seq<char>, b: Seq<char>) -> bool {
    lex_lt(path_key(a), path_key(b), comp_lt())
}

pub proof fn lemma_path_key_order()
    ensures
        strict_total(|a: Seq<PathComp>, b: Seq<PathComp>| lex_lt(a, b, comp_lt())),
{
    lemma_comp_lt_strict_total();
    lemma_lex_strict_total(comp_lt());
}

/// A path strictly before `x` is strictly before every path not before `x`.
pub proof fn lemma_path_lt_mixed(a: Seq<char>, x: Seq<char>, y: Seq<char>)
    requires
        path_lt(a, x),
        !path_lt(y, x),
    ensures
        path_lt(a, y),
        !path_lt(y, a),
{
    lemma_comp_lt_strict_total();
    lemma_lex_total(path_key(x), path_key(y), comp_lt());
    if path_key(x) != path_key(y) {
        lemma_lex_transitive(path_key(a), path_key(x), path_key(y), comp_lt());
    }
    if path_lt(y, a) {
        lemma_lex_transitive(path_key(y), path_key(a), path_key(y), comp_lt());
        lemma_lex_irreflexive(path_key(y), comp_lt());
    }
}

pub proof fn lemma_path_lt_irreflexive(a: Seq<char>)
    ensures
        !path_lt(a, a),
{
    lemma_comp_lt_strict_total();
    lemma_lex_irreflexive(path_key(a), comp_lt());
}

/// Paths in `s` never decrease.
pub open spec fn paths_sorted(s: Seq<Seq<char>>) -> bool {
    forall|i: int, j: int| 0 <= i < j < s.len() ==> !path_lt(#[trigger] s[j], #[trigger] s[i])
}

/// A path component, executable.
pub struct Comp {
    pub rank: u8,
    pub text: Vec<char>,
}

pub open spec fn comps_view(s: Seq<Comp>) -> Seq<PathComp> {
    s.map_values(|c: Comp| PathComp { rank: c.rank, text: c.text@ })
}

fn seg_comp_exec(seg: &Vec<char>) -> (r: Option<Comp>)
    ensures
        match seg_comp(seg@) {
            None => r.is_none(),
            Some(c) => r.is_some() && r.unwrap().rank == c.rank && r.unwrap().text@ == c.text,
        },
{
    if seg.len() == 0 {
        return None;
    }
    if seg.len() == 1 && seg[0] == '.' {
        assert(seg@ =~= dot());
        return None;
    }
    if seg.len() == 2 && seg[0] == '.' && seg[1] == '.' {
        assert(seg@ =~= dot_dot());
        return Some(Comp { rank: 2, text: Vec::new() });
    }
    assert(seg@ != dot()) by {
        if seg@ == dot() {
            assert(seg@.len() == 1);
        }
    }
    assert(seg@ != dot_dot()) by {
        if seg@ == dot_dot() {
            assert(seg@.len() == 2);
        }
    }
    let mut t: Vec<char> = Vec::new();
    let mut i: usize = 0;
    while i < seg.len()
        invariant
            i <= seg@.len(),
            t@ == seg@.take(i as int),
        decreases seg@.len() - i,
    {
        t.push(seg[i]);
        i = i + 1;
        assert(t@ =~= seg@.take(i as int));
    }
    assert(seg@.take(seg@.len() as int) =~= seg@);
    Some(Comp { rank: 3, text: t })
}

/// The components of `p`, for comparing paths.
pub fn path_key_exec(p: &str) -> (r: Vec<Comp>)
    ensures
        comps_view(r@) == path_key(p@),
{
    let segs = split_segments(p);
    let chars = crate::text::chars_of(p);
    let ghost sv = segs.deep_view();
    let mut r: Vec<Comp> = Vec::new();
    let absolute = chars.len() > 0 && chars[0] == '/';
    let mut lead = false;
    if absolute {
        r.push(Comp { rank: 0, text: Vec::new() });
    } else if segs.len() > 1 && segs[0].len() == 1 && segs[0][0] == '.' {
        assert(segs[0]@ == sv[0]);
        assert(sv[0] =~= dot());
        r.push(Comp { rank: 1, text: Vec::new() });
        lead = true;
    }
    let ghost head = comps_view(r@);
    assert(head =~= (if is_absolute(p@) {
        seq![PathComp { rank: 0, text: Seq::empty() }]
    } else if segments(p@).len() > 1 && segments(p@)[0] == dot() {
        seq![PathComp { rank: 1, text: Seq::empty() }]
    } else {
        Seq::<PathComp>::empty()
    })) by {
        if !absolute && !lead && segments(p@).len() > 1 && segments(p@)[0] == dot() {
            assert(segs[0]@ == sv[0]);
            assert(sv[0].len() == 1);
        }
    }
    let mut i: usize = 0;
    assert(sv.take(0) =~= Seq::<Seq<char>>::empty());
    assert(comps_view(r@) =~= head + segs_key(sv.take(0)));
    while i < segs.len()
        invariant
            sv == segs.deep_view(),
            i <= sv.len(),
            comps_view(r@) == head + segs_key(sv.take(i as int)),
        decreases sv.len() - i,
    {
        assert(segs[i as int]@ == sv[i as int]);
        assert(sv.take(i + 1).drop_last() =~= sv.take(i as int));
        let ghost prev = r@;
        match seg_comp_exec(&segs[i]) {
            Some(c) => {
                let ghost cv = PathComp { rank: c.rank, text: c.text@ };
                r.push(c);
                assert(comps_view(r@) =~= comps_view(prev).push(cv));
            },
            None => {},
        }
        i = i + 1;
        assert(comps_view(r@) =~= head + segs_key(sv.take(i as int)));
    }
    assert(sv.take(sv.len() as int) =~= sv);
    r
}

/// Code-point comparison of two strings.
pub fn compare_chars(a: &Vec<char>, b: &Vec<char>) -> (r: Compared)
    ensures
        (r == Compared::Less) == str_lt(a@, b@),
        (r == Compared::Equal) == (a@ == b@),
        (r == Compared::Greater) == str_lt(b@, a@),
{
    proof {
        lemma_str_lt_strict_total();
    }
    let ghost s = |x: Seq<char>, y: Seq<char>| str_lt(x, y);
    let mut i: usize = 0;
    assert(a@.skip(0) =~= a@);
    assert(b@.skip(0) =~= b@);
    while i < a.len() && i < b.len()
        invariant
            i <= a@.len(),
            i <= b@.len(),
            a@.take(i as int) == b@.take(i as int),
            str_lt(a@, b@) == str_lt(a@.skip(i as int), b@.skip(i as int)),
            str_lt(b@, a@) == str_lt(b@.skip(i as int), a@.skip(i as int)),
        decreases a@.len() - i,
    {
        let x = a[i];
        let y = b[i];
        assert(a@.skip(i as int)[0] == x);
        assert(b@.skip(i as int)[0] == y);
        if (x as u32) < (y as u32) {
            proof {
                assert(a@ != b@) by {
                    if a@ == b@ {
                        assert(a@[i as int] == b@[i as int]);
                    }
                }
            }
            return Compared::Less;
        }
        if (y as u32) < (x as u32) {
            proof {
                assert(a@ != b@) by {
                    if a@ == b@ {
                        assert(a@[i as int] == b@[i as int]);
                    }
                }
            }
            return Compared::Greater;
        }
        proof {
            vstd::utf8::char_u32_cast(x, x as u32);
            vstd::utf8::char_u32_cast(y, y as u32);
        }
        assert(x == y);
        assert(a@.skip(i as int).drop_first() =~= a@.skip(i + 1));
        assert(b@.skip(i as int).drop_first() =~= b@.skip(i + 1));
        assert(a@.take(i + 1) =~= a@.take(i as int).push(x));
        assert(b@.take(i + 1) =~= b@.take(i as int).push(y));
        i = i + 1;
    }
    if a.len() < b.len() {
        assert(a@ != b@);
        assert(a@.skip(i as int).len() == 0);
        Compared::Less
    } else if b.len() < a.len() {
        assert(a@ != b@);
        assert(b@.skip(i as int).len() == 0);
        Compared::Greater
    } else {
        assert(a@ =~= a@.take(i as int));
        assert(b@ =~= b@.take(i as int));
        assert(a@.skip(i as int).len() == 0);
        Compared::Equal
    }
}

fn compare_comp(a: &Comp, b: &Comp) -> (r: Compared)
    ensures
        (r == Compared::Less) == comp_lt()(
            PathComp { rank: a.rank, text: a.text@ },
            PathComp { rank: b.rank, text: b.text@ },
        ),
        (r == Compared::Equal) == ((PathComp { rank: a.rank, text: a.text@ }) == (PathComp {
            rank: b.rank,
            text: b.text@,
        })),
        (r == Compared::Greater) == comp_lt()(
            PathComp { rank: b.rank, text: b.text@ },
            PathComp { rank: a.rank, text: a.text@ },
        ),
{
    proof {
        lemma_str_lt_strict_total();
    }
    let ghost s = |x: Seq<char>, y: Seq<char>| str_lt(x, y);
    if a.rank < b.rank {
        Compared::Less
    } else if b.rank < a.rank {
        Compared::Greater
    } else {
        let r = compare_chars(&a.text, &b.text);
        proof {
            assert(!s(a.text@, a.text@));
        }
        r
    }
}

/// Component-wise comparison of two paths' components.
pub fn compare_comps(a: &Vec<Comp>, b: &Vec<Comp>) -> (r: Compared)
    ensures
        (r == Compared::Less) == lex_lt(comps_view(a@), comps_view(b@), comp_lt()),
        (r == Compared::Equal) == (comps_view(a@) == comps_view(b@)),
        (r == Compared::Greater) == lex_lt(comps_view(b@), comps_view(a@), comp_lt()),
{
    proof {
        lemma_path_key_order();
    }
    let ghost l = |x: Seq<PathComp>, y: Seq<PathComp>| lex_lt(x, y, comp_lt());
    let ghost av = comps_view(a@);
    let ghost bv = comps_view(b@);
    let mut i: usize = 0;
    assert(av.skip(0) =~= av);
    assert(bv.skip(0) =~= bv);
    while i < a.len() && i < b.len()
        invariant
            av == comps_view(a@),
            bv == comps_view(b@),
            i <= a@.len(),
            i <= b@.len(),
            av.take(i as int) == bv.take(i as int),
            lex_lt(av, bv, comp_lt()) == lex_lt(av.skip(i as int), bv.skip(i as int), comp_lt()),
            lex_lt(bv, av, comp_lt()) == lex_lt(bv.skip(i as int), av.skip(i as int), comp_lt()),
        decreases a@.len() - i,
    {
        let c = compare_comp(&a[i], &b[i]);
        assert(av.skip(i as int)[0] == av[i as int]);
        assert(bv.skip(i as int)[0] == bv[i as int]);
        match c {
            Compared::Less => {
                proof {
                    assert(av != bv) by {
                        if av == bv {
                            assert(av[i as int] == bv[i as int]);
                            assert(!comp_lt()(av[i as int], av[i as int]));
                        }
                    }
                    assert(!comp_lt()(bv[i as int], av[i as int]));
                }
                return Compared::Less;
            },
            Compared::Greater => {
                proof {
                    assert(av != bv) by {
                        if av == bv {
                            assert(av[i as int] == bv[i as int]);
                            assert(!comp_lt()(av[i as int], av[i as int]));
                        }
                    }
                    assert(!comp_lt()(av[i as int], bv[i as int]));
                }
                return Compared::Greater;
            },
            Compared::Equal => {},
        }
        assert(av[i as int] == bv[i as int]);
        assert(!comp_lt()(av[i as int], av[i as int]));
        assert(av.skip(i as int).drop_first() =~= av.skip(i + 1));
        assert(bv.skip(i as int).drop_first() =~= bv.skip(i + 1));
        assert(av.take(i + 1) =~= av.take(i as int).push(av[i as int]));
        assert(bv.take(i + 1) =~= bv.take(i as int).push(bv[i as int]));
        i = i + 1;
    }
    if a.len() < b.len() {
        assert(av != bv);
        assert(av.skip(i as int).len() == 0);
        Compared::Less
    } else if b.len() < a.len() {
        assert(av != bv);
        assert(bv.skip(i as int).len() == 0);
        Compared::Greater
    } else {
        assert(av =~= av.take(i as int));
        assert(bv =~= bv.take(i as int));
        assert(av.skip(i as int).len() == 0);
        Compared::Equal
    }
}

/// What diagnostics are sorted and deduplicated by: the primary
/// annotation's file and start offset, the rule name, then the message.
pub struct SortKey {
    pub path: Seq<PathComp>,
    pub offset: u32,
    pub rule: Seq<char>,
    pub message: Seq<char>,
    pub severity: Severity,
}

/// Warnings sort before errors with the same location, rule and message.
pub open spec fn severity_rank(s: Severity) -> int {
    match s {
        Severity::Warning => 0,
        Severity::Error => 1,
    }
}

#[verifier::opaque]
pub open spec fn key_lt(a: SortKey, b: SortKey) -> bool {
    ||| lex_lt(a.path, b.path, comp_lt())
    ||| a.path == b.path && a.offset < b.offset
    ||| a.path == b.path && a.offset == b.offset && str_lt(a.rule, b.rule)
    ||| a.path == b.path && a.offset == b.offset && a.rule == b.rule && str_lt(a.message, b.message)
    ||| a.path == b.path && a.offset == b.offset && a.rule == b.rule && a.message == b.message
        && severity_rank(a.severity) < severity_rank(b.severity)
}

pub proof fn lemma_key_lt_strict_total()
    ensures
        strict_total(|a: SortKey, b: SortKey| key_lt(a, b)),
{
    lemma_path_key_order();
    lemma_str_lt_strict_total();
    let p = |x: Seq<PathComp>, y: Seq<PathComp>| lex_lt(x, y, comp_lt());
    let s = |x: Seq<char>, y: Seq<char>| str_lt(x, y);
    reveal(key_lt);
    let k = |a: SortKey, b: SortKey| key_lt(a, b);
    assert forall|x: SortKey| !#[trigger] k(x, x) by {
        assert(!p(x.path, x.path));
        assert(!s(x.rule, x.rule));
        assert(!s(x.message, x.message));
    }
    assert forall|x: SortKey, y: SortKey, z: SortKey| #[trigger] k(x, y) && #[trigger] k(y, z) implies k(
        x,
        z,
    ) by {
        assert(p(x.path, y.path) && p(y.path, z.path) ==> p(x.path, z.path));
        assert(s(x.rule, y.rule) && s(y.rule, z.rule) ==> s(x.rule, z.rule));
        assert(s(x.message, y.message) && s(y.message, z.message) ==> s(x.message, z.message));
    }
    assert forall|x: SortKey, y: SortKey| #[trigger] k(x, y) || x == y || #[trigger] k(y, x) by {
        assert(p(x.path, y.path) || x.path == y.path || p(y.path, x.path));
        assert(s(x.rule, y.rule) || x.rule == y.rule || s(y.rule, x.rule));
        assert(s(x.message, y.message) || x.message == y.message || s(y.message, x.message));
    }
}

/// The sort key of a diagnostic; a diagnostic without annotations sorts as
/// if located at offset 0 of the empty path.
#[verifier::opaque]
pub open spec fn diag_key(d: Diagnostic) -> SortKey {
    let (path, offset) = match spec_primary_index(d@.annotations) {
        Some(i) => (
            path_key(d@.annotations[i].span.file),
            match d@.annotations[i].span.range {
                Some(r) => r.start,
                None => 0u32,
            },
        ),
        None => (path_key(Seq::empty()), 0u32),
    };
    SortKey { path, offset, rule: d.rule.name@, message: d@.message, severity: d.severity }
}

/// Two diagnostics with the same view and rule have the same key.
pub proof fn lemma_diag_key_congruent(a: Diagnostic, b: Diagnostic)
    requires
        a@ == b@,
        a.rule == b.rule,
    ensures
        diag_key(a) == diag_key(b),
{
    reveal(diag_key);
}

/// A sort key, executable.
pub struct ExecKey {
    pub path: Vec<Comp>,
    pub offset: u32,
    pub rule: Vec<char>,
    pub message: Vec<char>,
    pub severity: Severity,
}

pub open spec fn key_view(k: ExecKey) -> SortKey {
    SortKey {
        path: comps_view(k.path@),
        offset: k.offset,
        rule: k.rule@,
        message: k.message@,
        severity: k.severity,
    }
}

pub fn diag_key_exec(d: &Diagnostic) -> (k: ExecKey)
    ensures
        key_view(k) == diag_key(*d),
{
    reveal(diag_key);
    let empty = String::new();
    let (path, offset) = match d.primary_annotation() {
        Some(a) => (
            path_key_exec(a.span.file.as_str()),
            match a.span.range {
                Some(r) => r.start,
                None => 0,
            },
        ),
        None => (path_key_exec(empty.as_str()), 0),
    };
    ExecKey {
        path,
        offset,
        rule: chars_of(d.rule.name),
        message: chars_of(d.message.as_str()),
        severity: d.severity,
    }
}

pub fn compare_keys(a: &ExecKey, b: &ExecKey) -> (r: Compared)
    ensures
        (r == Compared::Less) == key_lt(key_view(*a), key_view(*b)),
        (r == Compared::Equal) == (key_view(*a) == key_view(*b)),
        (r == Compared::Greater) == key_lt(key_view(*b), key_view(*a)),
{
    proof {
        lemma_path_key_order();
        lemma_str_lt_strict_total();
        reveal(key_lt);
    }
    let ghost p = |x: Seq<PathComp>, y: Seq<PathComp>| lex_lt(x, y, comp_lt());
    let ghost s = |x: Seq<char>, y: Seq<char>| str_lt(x, y);
    let ghost av = key_view(*a);
    let ghost bv = key_view(*b);
    proof {
        assert(!p(av.path, av.path));
        assert(!s(av.rule, av.rule));
        assert(!s(av.message, av.message));
        assert(!p(bv.path, bv.path));
        assert(!s(bv.rule, bv.rule));
        assert(!s(bv.message, bv.message));
    }
    match compare_comps(&a.path, &b.path) {
        Compared::Less => {
            return Compared::Less;
        },
        Compared::Greater => {
            return Compared::Greater;
        },
        Compared::Equal => {},
    }
    if a.offset < b.offset {
        return Compared::Less;
    }
    if b.offset < a.offset {
        return Compared::Greater;
    }
    match compare_chars(&a.rule, &b.rule) {
        Compared::Less => {
            return Compared::Less;
        },
        Compared::Greater => {
            return Compared::Greater;
        },
        Compared::Equal => {},
    }
    match compare_chars(&a.message, &b.message) {
        Compared::Less => {
            return Compared::Less;
        },
        Compared::Greater => {
            return Compared::Greater;
        },
        Compared::Equal => {},
    }
    match (a.severity, b.severity) {
        (Severity::Warning, Severity::Error) => Compared::Less,
        (Severity::Error, Severity::Warning) => Compared::Greater,
        _ => Compared::Equal,
    }
}

pub proof fn lemma_key_irreflexive(a: SortKey)
    ensures
        !key_lt(a, a),
{
    lemma_key_lt_strict_total();
    let k = |a: SortKey, b: SortKey| key_lt(a, b);
    assert(!k(a, a));
}

pub proof fn lemma_key_transitive(a: SortKey, b: SortKey, c: SortKey)
    requires
        key_lt(a, b),
        key_lt(b, c),
    ensures
        key_lt(a, c),
{
    lemma_key_lt_strict_total();
    let k = |a: SortKey, b: SortKey| key_lt(a, b);
    assert(k(a, b) && k(b, c));
}

/// The same diagnostic, as far as a report shows it.
pub open spec fn same_diagnostic(a: Diagnostic, b: Diagnostic) -> bool {
    a@ == b@ && a.rule == b.rule
}

/// Keys strictly increase along `o`: sorted, with no key twice.
pub open spec fn sorted_unique(o: Seq<Diagnostic>) -> bool {
    forall|i: int, j: int| 0 <= i < j < o.len() ==> key_lt(diag_key(#[trigger] o[i]), diag_key(#[trigger] o[j]))
}

/// `input[k]` is the first diagnostic of `input` with its key.
pub open spec fn first_with_key(input: Seq<Diagnostic>, k: int) -> bool {
    0 <= k < input.len() && forall|m: int| 0 <= m < k ==> diag_key(#[trigger] input[m]) != diag_key(input[k])
}

/// `src` and `pos` link `o` to `input`: `o[i]` is the first diagnostic of
/// `input` with its key, found at `src[i]`, and the key of `input[k]` sits
/// at `o[pos[k]]`.
pub open spec fn dedup_witnessed(o: Seq<Diagnostic>, input: Seq<Diagnostic>, src: Seq<int>, pos: Seq<int>) -> bool {
    &&& src.len() == o.len()
    &&& pos.len() == input.len()
    &&& forall|i: int|
        #![trigger src[i]]
        0 <= i < o.len() ==> first_with_key(input, src[i]) && same_diagnostic(o[i], input[src[i]])
    &&& forall|k: int|
        #![trigger pos[k]]
        0 <= k < input.len() ==> 0 <= pos[k] < o.len() && diag_key(o[pos[k]]) == diag_key(input[k])
}

/// `o` holds, in key order, the first diagnostic of `input` for each key
/// that occurs in `input`, and nothing else.
pub open spec fn is_dedup_sort_of(o: Seq<Diagnostic>, input: Seq<Diagnostic>) -> bool {
    &&& sorted_unique(o)
    &&& exists|src: Seq<int>, pos: Seq<int>| dedup_witnessed(o, input, src, pos)
}


/// The sort key of a diagnostic as a report shows it.
#[verifier::opaque]
pub open spec fn view_key(v: DiagnosticView) -> SortKey {
    let (path, offset) = match spec_primary_index(v.annotations) {
        Some(i) => (
            path_key(v.annotations[i].span.file),
            match v.annotations[i].span.range {
                Some(r) => r.start,
                None => 0u32,
            },
        ),
        None => (path_key(Seq::empty()), 0u32),
    };
    SortKey { path, offset, rule: v.rule_name, message: v.message, severity: v.severity }
}

pub proof fn lemma_view_key(d: Diagnostic)
    ensures
        diag_key(d) == view_key(d@),
{
    reveal(diag_key);
    reveal(view_key);
}

/// Two diagnostics with the same key have the same severity.
pub proof fn lemma_view_key_severity(a: DiagnosticView, b: DiagnosticView)
    requires
        view_key(a) == view_key(b),
    ensures
        a.severity == b.severity,
{
    reveal(view_key);
}

/// Keys strictly increase along `o`.
pub open spec fn views_sorted_unique(o: Seq<DiagnosticView>) -> bool {
    forall|i: int, j: int| 0 <= i < j < o.len() ==> key_lt(view_key(#[trigger] o[i]), view_key(#[trigger] o[j]))
}

/// `input[k]` is the first diagnostic of `input` with its key.
pub open spec fn first_with_view_key(input: Seq<DiagnosticView>, k: int) -> bool {
    0 <= k < input.len() && forall|m: int| 0 <= m < k ==> view_key(#[trigger] input[m]) != view_key(input[k])
}

/// `src` and `pos` link `o` to `input` as in [`dedup_witnessed`].
pub open spec fn views_dedup_witnessed(
    o: Seq<DiagnosticView>,
    input: Seq<DiagnosticView>,
    src: Seq<int>,
    pos: Seq<int>,
) -> bool {
    &&& src.len() == o.len()
    &&& pos.len() == input.len()
    &&& forall|i: int|
        #![trigger src[i]]
        0 <= i < o.len() ==> first_with_view_key(input, src[i]) && o[i] == input[src[i]]
    &&& forall|k: int|
        #![trigger pos[k]]
        0 <= k < input.len() ==> 0 <= pos[k] < o.len() && view_key(o[pos[k]]) == view_key(input[k])
}

/// `o` holds, in key order, the first diagnostic of `input` for each key
/// that occurs in `input`, and nothing else.
pub open spec fn is_views_dedup_sort_of(o: Seq<DiagnosticView>, input: Seq<DiagnosticView>) -> bool {
    &&& views_sorted_unique(o)
    &&& exists|src: Seq<int>, pos: Seq<int>| views_dedup_witnessed(o, input, src, pos)
}

/// Deduplicating and sorting diagnostics is deduplicating and sorting what
/// a report shows of them.
pub proof fn lemma_dedup_views(o: Seq<Diagnostic>, input: Seq<Diagnostic>)
    requires
        is_dedup_sort_of(o, input),
    ensures
        is_views_dedup_sort_of(diagnostics_view(o), diagnostics_view(input)),
{
    let (src, pos) = choose|src: Seq<int>, pos: Seq<int>| dedup_witnessed(o, input, src, pos);
    let ov = diagnostics_view(o);
    let iv = diagnostics_view(input);
    assert forall|i: int| 0 <= i < o.len() implies diag_key(#[trigger] o[i]) == view_key(ov[i]) by {
        lemma_view_key(o[i]);
    }
    assert forall|k: int| 0 <= k < input.len() implies diag_key(#[trigger] input[k]) == view_key(iv[k]) by {
        lemma_view_key(input[k]);
    }
    assert(views_sorted_unique(ov)) by {
        assert forall|i: int, j: int| 0 <= i < j < ov.len() implies key_lt(
            view_key(#[trigger] ov[i]),
            view_key(#[trigger] ov[j]),
        ) by {
            assert(key_lt(diag_key(o[i]), diag_key(o[j])));
            assert(diag_key(o[i]) == view_key(ov[i]));
            assert(diag_key(o[j]) == view_key(ov[j]));
        }
    }
    assert forall|k: int| #![trigger src[k]] 0 <= k < o.len() implies first_with_view_key(iv, src[k]) && ov[k]
        == iv[src[k]] by {
        assert(first_with_key(input, src[k]));
        assert(same_diagnostic(o[k], input[src[k]]));
        assert forall|m: int| 0 <= m < src[k] implies view_key(#[trigger] iv[m]) != view_key(iv[src[k]]) by {
            assert(diag_key(input[m]) != diag_key(input[src[k]]));
            assert(diag_key(input[m]) == view_key(iv[m]));
            assert(diag_key(input[src[k]]) == view_key(iv[src[k]]));
        }
    }
    assert forall|k: int| #![trigger pos[k]] 0 <= k < input.len() implies 0 <= pos[k] < o.len() && view_key(
        ov[pos[k]],
    ) == view_key(iv[k]) by {
        assert(diag_key(o[pos[k]]) == diag_key(input[k]));
        assert(diag_key(o[pos[k]]) == view_key(ov[pos[k]]));
        assert(diag_key(input[k]) == view_key(iv[k]));
    }
    assert(views_dedup_witnessed(ov, iv, src, pos));
}

/// A report never lists two diagnostics with the same file, offset, rule,
/// message and severity.
pub proof fn lemma_report_has_no_duplicates(o: Seq<DiagnosticView>, input: Seq<DiagnosticView>)
    requires
        is_views_dedup_sort_of(o, input),
    ensures
        forall|i: int, j: int| 0 <= i < o.len() && 0 <= j < o.len() && i != j ==> view_key(#[trigger] o[i]) != view_key(#[trigger] o[j]),
{
    assert forall|i: int, j: int| 0 <= i < o.len() && 0 <= j < o.len() && i != j implies view_key(#[trigger] o[i]) != view_key(
        #[trigger] o[j],
    ) by {
        if i < j {
            assert(key_lt(view_key(o[i]), view_key(o[j])));
            lemma_key_irreflexive(view_key(o[i]));
        } else {
            assert(key_lt(view_key(o[j]), view_key(o[i])));
            lemma_key_irreflexive(view_key(o[j]));
        }
    }
}

proof fn lemma_sorted_same_keys(a: Seq<DiagnosticView>, b: Seq<DiagnosticView>, f: Seq<int>, g: Seq<int>)
    requires
        views_sorted_unique(a),
        views_sorted_unique(b),
        f.len() == a.len(),
        g.len() == b.len(),
        forall|i: int| #![trigger f[i]] 0 <= i < a.len() ==> 0 <= f[i] < b.len() && view_key(b[f[i]]) == view_key(a[i]),
        forall|j: int| #![trigger g[j]] 0 <= j < b.len() ==> 0 <= g[j] < a.len() && view_key(a[g[j]]) == view_key(b[j]),
    ensures
        a.len() == b.len(),
        forall|i: int| 0 <= i < a.len() ==> view_key(#[trigger] a[i]) == view_key(b[i]),
    decreases a.len(),
{
    if a.len() == 0 {
        if b.len() > 0 {
            assert(0 <= g[0] < a.len());
        }
    } else if b.len() == 0 {
        assert(0 <= f[0] < b.len());
    } else {
        let j0 = f[0];
        let i0 = g[0];
        assert(view_key(a[0]) == view_key(b[0])) by {
            if j0 > 0 {
                assert(key_lt(view_key(b[0]), view_key(b[j0])));
                if i0 > 0 {
                    assert(key_lt(view_key(a[0]), view_key(a[i0])));
                    lemma_key_transitive(view_key(a[0]), view_key(a[i0]), view_key(a[0]));
                }
                lemma_key_irreflexive(view_key(a[0]));
            }
        }
        let a1 = a.drop_first();
        let b1 = b.drop_first();
        let f1 = Seq::new(a1.len(), |i: int| f[i + 1] - 1);
        let g1 = Seq::new(b1.len(), |j: int| g[j + 1] - 1);
        assert forall|i: int| #![trigger f1[i]] 0 <= i < a1.len() implies 0 <= f1[i] < b1.len() && view_key(b1[f1[i]])
            == view_key(a1[i]) by {
            assert(0 <= f[i + 1] < b.len() && view_key(b[f[i + 1]]) == view_key(a[i + 1]));
            assert(key_lt(view_key(a[0]), view_key(a[i + 1])));
            if f[i + 1] == 0 {
                lemma_key_irreflexive(view_key(a[0]));
            }
        }
        assert forall|j: int| #![trigger g1[j]] 0 <= j < b1.len() implies 0 <= g1[j] < a1.len() && view_key(a1[g1[j]])
            == view_key(b1[j]) by {
            assert(0 <= g[j + 1] < a.len() && view_key(a[g[j + 1]]) == view_key(b[j + 1]));
            assert(key_lt(view_key(b[0]), view_key(b[j + 1])));
            if g[j + 1] == 0 {
                lemma_key_irreflexive(view_key(b[0]));
            }
        }
        lemma_sorted_same_keys(a1, b1, f1, g1);
        assert forall|i: int| 0 <= i < a.len() implies view_key(#[trigger] a[i]) == view_key(b[i]) by {
            if i > 0 {
                assert(a1[i - 1] == a[i] && b1[i - 1] == b[i]);
            }
        }
    }
}

/// Deduplicating and sorting is a function: two results for the same
/// diagnostics are the same report.
pub proof fn lemma_dedup_sort_unique(o1: Seq<DiagnosticView>, o2: Seq<DiagnosticView>, input: Seq<DiagnosticView>)
    requires
        is_views_dedup_sort_of(o1, input),
        is_views_dedup_sort_of(o2, input),
    ensures
        o1 == o2,
{
    let (s1, p1) = choose|src: Seq<int>, pos: Seq<int>| views_dedup_witnessed(o1, input, src, pos);
    let (s2, p2) = choose|src: Seq<int>, pos: Seq<int>| views_dedup_witnessed(o2, input, src, pos);
    let f = Seq::new(o1.len(), |i: int| p2[s1[i]]);
    let g = Seq::new(o2.len(), |j: int| p1[s2[j]]);
    assert forall|i: int| #![trigger f[i]] 0 <= i < o1.len() implies 0 <= f[i] < o2.len() && view_key(o2[f[i]])
        == view_key(o1[i]) by {
        let k = s1[i];
        assert(first_with_view_key(input, k) && o1[i] == input[k]);
        assert(0 <= p2[k] < o2.len() && view_key(o2[p2[k]]) == view_key(input[k]));
    }
    assert forall|j: int| #![trigger g[j]] 0 <= j < o2.len() implies 0 <= g[j] < o1.len() && view_key(o1[g[j]])
        == view_key(o2[j]) by {
        let k = s2[j];
        assert(first_with_view_key(input, k) && o2[j] == input[k]);
        assert(0 <= p1[k] < o1.len() && view_key(o1[p1[k]]) == view_key(input[k]));
    }
    lemma_sorted_same_keys(o1, o2, f, g);
    assert forall|i: int| 0 <= i < o1.len() implies o1[i] == o2[i] by {
        let a = s1[i];
        let b = s2[i];
        assert(first_with_view_key(input, a) && o1[i] == input[a]);
        assert(first_with_view_key(input, b) && o2[i] == input[b]);
        assert(view_key(o1[i]) == view_key(o2[i]));
        if a < b {
            assert(view_key(input[a]) != view_key(input[b]));
        } else if b < a {
            assert(view_key(input[b]) != view_key(input[a]));
        }
    }
    assert(o1 =~= o2);
}

/// A report is its own deduplicated, sorted form.
pub proof fn lemma_dedup_sort_idempotent(o: Seq<DiagnosticView>, input: Seq<DiagnosticView>)
    requires
        is_views_dedup_sort_of(o, input),
    ensures
        is_views_dedup_sort_of(o, o),
{
    let id = Seq::new(o.len(), |i: int| i);
    assert forall|i: int| #![trigger id[i]] 0 <= i < o.len() implies first_with_view_key(o, id[i]) && o[i] == o[id[i]] by {
        assert forall|m: int| 0 <= m < i implies view_key(#[trigger] o[m]) != view_key(o[i]) by {
            assert(key_lt(view_key(o[m]), view_key(o[i])));
            lemma_key_irreflexive(view_key(o[i]));
        }
    }
    assert(views_dedup_witnessed(o, o, id, id));
}

/// Finding every diagnostic twice, as when a river is checked both on its
/// own and as part of another, gives the same report as finding it once.
pub proof fn lemma_dedup_sort_twice(o: Seq<DiagnosticView>, input: Seq<DiagnosticView>)
    requires
        is_views_dedup_sort_of(o, input),
    ensures
        is_views_dedup_sort_of(o, input + input),
{
    let (src, pos) = choose|src: Seq<int>, pos: Seq<int>| views_dedup_witnessed(o, input, src, pos);
    let x = input + input;
    let n = input.len() as int;
    let pos2 = Seq::new((2 * n) as nat, |k: int| if k < n { pos[k] } else { pos[k - n] });
    assert forall|i: int| #![trigger src[i]] 0 <= i < o.len() implies first_with_view_key(x, src[i]) && o[i] == x[src[i]] by {
        assert(first_with_view_key(input, src[i]));
        assert(x[src[i]] == input[src[i]]);
        assert forall|m: int| 0 <= m < src[i] implies view_key(#[trigger] x[m]) != view_key(x[src[i]]) by {
            assert(x[m] == input[m]);
        }
    }
    assert forall|k: int| #![trigger pos2[k]] 0 <= k < x.len() implies 0 <= pos2[k] < o.len() && view_key(o[pos2[k]])
        == view_key(x[k]) by {
        if k < n {
            assert(x[k] == input[k]);
            assert(pos2[k] == pos[k]);
        } else {
            assert(x[k] == input[k - n]);
            assert(pos2[k] == pos[k - n]);
        }
    }
    assert(views_dedup_witnessed(o, x, src, pos2));
}

} // verus!
