//! Lexical path operations on `/`-separated paths: joining, normalizing,
//! and taking apart file names. Nothing here touches the filesystem, so the
//! same artifact written and read via different relative spellings gets one
//! identity.

use vstd::prelude::*;

use crate::text::{chars_of, push_char, push_chars, string_from_chars};

verus! {

/// The characters after the last `/` of `p` (all of `p` when it has none).
pub open spec fn last_segment(p: Seq<char>) -> Seq<char>
    decreases p.len(),
{
    if p.len() == 0 {
        Seq::empty()
    } else if p.last() == '/' {
        Seq::empty()
    } else {
        last_segment(p.drop_last()).push(p.last())
    }
}

/// The `/`-terminated segments of `p`, in order (empty ones included).
pub open spec fn closed_segments(p: Seq<char>) -> Seq<Seq<char>>
    decreases p.len(),
{
    if p.len() == 0 {
        Seq::empty()
    } else if p.last() == '/' {
        closed_segments(p.drop_last()).push(last_segment(p.drop_last()))
    } else {
        closed_segments(p.drop_last())
    }
}

/// All `/`-separated segments of `p`, in order.
pub open spec fn segments(p: Seq<char>) -> Seq<Seq<char>> {
    closed_segments(p).push(last_segment(p))
}

pub open spec fn dot() -> Seq<char> {
    seq!['.']
}

pub open spec fn dot_dot() -> Seq<char> {
    seq!['.', '.']
}

/// One lexical step: empty and `.` segments vanish, `..` removes the last
/// component (or is kept when there is none to remove, or the last is a
/// `..` itself), anything else is appended.
pub open spec fn norm_step(comps: Seq<Seq<char>>, seg: Seq<char>) -> Seq<Seq<char>> {
    if seg.len() == 0 || seg == dot() {
        comps
    } else if seg == dot_dot() {
        if comps.len() == 0 || comps.last() == dot_dot() {
            comps.push(dot_dot())
        } else {
            comps.drop_last()
        }
    } else {
        comps.push(seg)
    }
}

pub open spec fn fold_norm(segs: Seq<Seq<char>>) -> Seq<Seq<char>>
    decreases segs.len(),
{
    if segs.len() == 0 {
        Seq::empty()
    } else {
        norm_step(fold_norm(segs.drop_last()), segs.last())
    }
}

/// The components left after lexically resolving `.` and `..` in `p`.
pub open spec fn spec_components(p: Seq<char>) -> Seq<Seq<char>> {
    fold_norm(segments(p))
}

pub open spec fn is_absolute(p: Seq<char>) -> bool {
    p.len() > 0 && p[0] == '/'
}

/// Components joined with `/`.
pub open spec fn join_slash(comps: Seq<Seq<char>>) -> Seq<char>
    decreases comps.len(),
{
    if comps.len() == 0 {
        Seq::empty()
    } else if comps.len() == 1 {
        comps[0]
    } else {
        join_slash(comps.drop_last()) + seq!['/'] + comps.last()
    }
}

/// `p` with `.` and `..` resolved lexically; absolute paths stay absolute.
pub open spec fn spec_normalize(p: Seq<char>) -> Seq<char> {
    if is_absolute(p) {
        seq!['/'] + join_slash(spec_components(p))
    } else {
        join_slash(spec_components(p))
    }
}

proof fn lemma_fold_norm_push(segs: Seq<Seq<char>>, s: Seq<char>)
    ensures
        fold_norm(segs.push(s)) == norm_step(fold_norm(segs), s),
{
    assert(segs.push(s).drop_last() =~= segs);
}

fn is_dot(seg: &Vec<char>) -> (r: bool)
    ensures
        r == (seg@ == dot()),
{
    if seg.len() == 1 && seg[0] == '.' {
        assert(seg@ =~= dot());
        true
    } else {
        false
    }
}

fn is_dot_dot(seg: &Vec<char>) -> (r: bool)
    ensures
        r == (seg@ == dot_dot()),
{
    if seg.len() == 2 && seg[0] == '.' && seg[1] == '.' {
        assert(seg@ =~= dot_dot());
        true
    } else {
        false
    }
}

fn apply_segment(comps: &mut Vec<Vec<char>>, seg: Vec<char>)
    ensures
        final(comps).deep_view() == norm_step(old(comps).deep_view(), seg@),
{
    let ghost before = comps.deep_view();
    assert(seg.deep_view() =~= seg@);
    if seg.len() == 0 || is_dot(&seg) {
        return;
    }
    if is_dot_dot(&seg) {
        if comps.len() == 0 || is_dot_dot(&comps[comps.len() - 1]) {
            proof {
                if comps.len() > 0 {
                    assert(comps[comps.len() - 1]@ == before.last());
                }
            }
            comps.push(seg);
            assert(comps.deep_view() =~= before.push(dot_dot()));
        } else {
            assert(comps[comps.len() - 1]@ == before.last());
            comps.pop();
            assert(comps.deep_view() =~= before.drop_last());
        }
    } else {
        let ghost sv = seg@;
        comps.push(seg);
        assert(comps.deep_view() =~= before.push(sv));
    }
}

/// Renders components as a path: a leading `/` when `absolute`, then the
/// components joined with `/`.
fn render_components(absolute: bool, comps: &Vec<Vec<char>>) -> (s: String)
    ensures
        s@ == (if absolute {
            seq!['/'] + join_slash(comps.deep_view())
        } else {
            join_slash(comps.deep_view())
        }),
{
    let mut s = String::new();
    let ghost prefix: Seq<char> = if absolute {
        seq!['/']
    } else {
        Seq::empty()
    };
    if absolute {
        push_char(&mut s, '/');
    }
    assert(s@ =~= prefix);
    let ghost cv = comps.deep_view();
    let mut i: usize = 0;
    while i < comps.len()
        invariant
            cv == comps.deep_view(),
            i <= cv.len(),
            s@ == prefix + join_slash(cv.take(i as int)),
        decreases cv.len() - i,
    {
        let ghost before = s@;
        if i > 0 {
            push_char(&mut s, '/');
        }
        push_chars(&mut s, comps[i].as_slice());
        proof {
            let t = cv.take(i + 1);
            assert(t.drop_last() =~= cv.take(i as int));
            assert(t.last() == cv[i as int]);
            assert(comps[i as int]@ == cv[i as int]);
            if i == 0 {
                assert(join_slash(cv.take(0)) =~= Seq::<char>::empty());
                assert(join_slash(t) == cv[0]);
            }
        }
        i = i + 1;
        assert(s@ =~= prefix + join_slash(cv.take(i as int)));
    }
    assert(cv.take(cv.len() as int) =~= cv);
    s
}

/// Lexically normalize a path (resolve `.` and `..`) without touching the
/// filesystem.
pub fn normalize(path: &str) -> (r: String)
    ensures
        r@ == spec_normalize(path@),
{
    let chars = chars_of(path);
    let ghost p = chars@;
    let mut comps: Vec<Vec<char>> = Vec::new();
    let mut cur: Vec<char> = Vec::new();
    let mut i: usize = 0;
    assert(comps.deep_view() =~= fold_norm(closed_segments(p.take(0))));
    assert(cur@ =~= last_segment(p.take(0)));
    while i < chars.len()
        invariant
            p == chars@,
            i <= p.len(),
            comps.deep_view() == fold_norm(closed_segments(p.take(i as int))),
            cur@ == last_segment(p.take(i as int)),
        decreases p.len() - i,
    {
        let c = chars[i];
        let ghost q = p.take(i as int);
        assert(p.take(i + 1) =~= q.push(c));
        assert(p.take(i + 1).drop_last() =~= q);
        if c == '/' {
            let seg = cur;
            cur = Vec::new();
            proof {
                lemma_fold_norm_push(closed_segments(q), seg@);
            }
            apply_segment(&mut comps, seg);
            assert(cur@ =~= last_segment(p.take(i + 1)));
        } else {
            cur.push(c);
        }
        i = i + 1;
    }
    assert(p.take(p.len() as int) =~= p);
    proof {
        lemma_fold_norm_push(closed_segments(p), cur@);
    }
    apply_segment(&mut comps, cur);
    let absolute = chars.len() > 0 && chars[0] == '/';
    render_components(absolute, &comps)
}

/// A component as normalization leaves it: not empty, without `/`, not `.`.
pub open spec fn good_component(x: Seq<char>) -> bool {
    x.len() > 0 && !x.contains('/') && x != dot()
}

/// Components as normalization leaves them: every one good, and the `..`
/// components all before the others.
pub open spec fn normal_components(c: Seq<Seq<char>>) -> bool {
    &&& forall|i: int| 0 <= i < c.len() ==> good_component(#[trigger] c[i])
    &&& forall|i: int, j: int| 0 <= j < i < c.len() && #[trigger] c[i] == dot_dot() ==> #[trigger] c[j] == dot_dot()
}

proof fn lemma_last_segment_no_slash(p: Seq<char>)
    ensures
        !last_segment(p).contains('/'),
    decreases p.len(),
{
    if p.len() > 0 && p.last() != '/' {
        lemma_last_segment_no_slash(p.drop_last());
        let l = last_segment(p.drop_last());
        assert forall|k: int| 0 <= k < l.push(p.last()).len() implies l.push(p.last())[k] != '/' by {
            if k < l.len() {
                assert(l.push(p.last())[k] == l[k]);
            }
        }
    }
}

proof fn lemma_closed_segments_no_slash(p: Seq<char>)
    ensures
        forall|i: int| 0 <= i < closed_segments(p).len() ==> !(#[trigger] closed_segments(p)[i]).contains('/'),
    decreases p.len(),
{
    if p.len() > 0 {
        let q = p.drop_last();
        lemma_closed_segments_no_slash(q);
        lemma_last_segment_no_slash(q);
        let c = closed_segments(p);
        assert forall|i: int| 0 <= i < c.len() implies !(#[trigger] c[i]).contains('/') by {
            if p.last() == '/' {
                assert(c == closed_segments(q).push(last_segment(q)));
                if i < closed_segments(q).len() {
                    assert(c[i] == closed_segments(q)[i]);
                }
            } else {
                assert(c == closed_segments(q));
            }
        }
    }
}

proof fn lemma_dot_dot_good()
    ensures
        good_component(dot_dot()),
{
    assert forall|k: int| 0 <= k < dot_dot().len() implies dot_dot()[k] != '/' by {}
    assert(dot_dot().len() != dot().len());
}

proof fn lemma_fold_norm_normal(segs: Seq<Seq<char>>)
    requires
        forall|i: int| 0 <= i < segs.len() ==> !(#[trigger] segs[i]).contains('/'),
    ensures
        normal_components(fold_norm(segs)),
    decreases segs.len(),
{
    if segs.len() > 0 {
        let prev = segs.drop_last();
        assert forall|i: int| 0 <= i < prev.len() implies !(#[trigger] prev[i]).contains('/') by {
            assert(prev[i] == segs[i]);
        }
        lemma_fold_norm_normal(prev);
        let c = fold_norm(prev);
        let seg = segs.last();
        assert(segs[segs.len() - 1] == seg);
        let r = norm_step(c, seg);
        lemma_dot_dot_good();
        if seg.len() == 0 || seg == dot() {
        } else if seg == dot_dot() {
            if c.len() == 0 || c.last() == dot_dot() {
                assert forall|i: int| 0 <= i < r.len() implies good_component(#[trigger] r[i]) by {
                    if i < c.len() {
                        assert(r[i] == c[i]);
                    }
                }
                assert forall|i: int, j: int| 0 <= j < i < r.len() && #[trigger] r[i] == dot_dot() implies #[trigger] r[j]
                    == dot_dot() by {
                    assert(r[j] == c[j]);
                    if i < c.len() {
                        assert(r[i] == c[i]);
                    } else if j < c.len() - 1 {
                        assert(c[c.len() - 1] == c.last());
                    }
                }
            } else {
                assert forall|i: int| 0 <= i < r.len() implies good_component(#[trigger] r[i]) by {
                    assert(r[i] == c[i]);
                }
                assert forall|i: int, j: int| 0 <= j < i < r.len() && #[trigger] r[i] == dot_dot() implies #[trigger] r[j]
                    == dot_dot() by {
                    assert(r[i] == c[i] && r[j] == c[j]);
                }
            }
        } else {
            assert forall|i: int| 0 <= i < r.len() implies good_component(#[trigger] r[i]) by {
                if i < c.len() {
                    assert(r[i] == c[i]);
                }
            }
            assert forall|i: int, j: int| 0 <= j < i < r.len() && #[trigger] r[i] == dot_dot() implies #[trigger] r[j]
                == dot_dot() by {
                assert(r[j] == c[j]);
                if i < c.len() {
                    assert(r[i] == c[i]);
                }
            }
        }
    }
}

proof fn lemma_no_slash_segments(s: Seq<char>)
    requires
        !s.contains('/'),
    ensures
        closed_segments(s) == Seq::<Seq<char>>::empty(),
        last_segment(s) == s,
    decreases s.len(),
{
    if s.len() > 0 {
        let t = s.drop_last();
        assert(!t.contains('/')) by {
            assert forall|k: int| 0 <= k < t.len() implies t[k] != '/' by {
                assert(t[k] == s[k]);
            }
        }
        assert(s[s.len() - 1] == s.last());
        lemma_no_slash_segments(t);
        assert(t.push(s.last()) =~= s);
    }
}

proof fn lemma_segments_split(a: Seq<char>, b: Seq<char>)
    ensures
        closed_segments(a + seq!['/'] + b) == closed_segments(a).push(last_segment(a)) + closed_segments(b),
        last_segment(a + seq!['/'] + b) == last_segment(b),
    decreases b.len(),
{
    let ab = a + seq!['/'] + b;
    if b.len() == 0 {
        assert(ab.drop_last() =~= a);
        assert(closed_segments(a).push(last_segment(a)) + Seq::<Seq<char>>::empty() =~= closed_segments(a).push(
            last_segment(a),
        ));
    } else {
        let b1 = b.drop_last();
        lemma_segments_split(a, b1);
        assert(ab.drop_last() =~= a + seq!['/'] + b1);
        assert(ab.last() == b.last());
        if b.last() == '/' {
            assert(closed_segments(a).push(last_segment(a)) + closed_segments(b1).push(last_segment(b1))
                =~= (closed_segments(a).push(last_segment(a)) + closed_segments(b1)).push(last_segment(b1)));
        }
    }
}

proof fn lemma_segments_of_join(c: Seq<Seq<char>>)
    requires
        c.len() > 0,
        forall|i: int| 0 <= i < c.len() ==> !(#[trigger] c[i]).contains('/'),
    ensures
        segments(join_slash(c)) == c,
    decreases c.len(),
{
    if c.len() == 1 {
        lemma_no_slash_segments(c[0]);
        assert(segments(c[0]) =~= c);
    } else {
        let c1 = c.drop_last();
        assert forall|i: int| 0 <= i < c1.len() implies !(#[trigger] c1[i]).contains('/') by {
            assert(c1[i] == c[i]);
        }
        lemma_segments_of_join(c1);
        assert(c[c.len() - 1] == c.last());
        lemma_no_slash_segments(c.last());
        lemma_segments_split(join_slash(c1), c.last());
        assert(segments(join_slash(c)) =~= segments(join_slash(c1)).push(c.last()));
    }
}

proof fn lemma_fold_norm_fixed(c: Seq<Seq<char>>)
    requires
        normal_components(c),
    ensures
        fold_norm(c) == c,
    decreases c.len(),
{
    if c.len() > 0 {
        let c1 = c.drop_last();
        assert forall|i: int| 0 <= i < c1.len() implies good_component(#[trigger] c1[i]) by {
            assert(c1[i] == c[i]);
        }
        assert forall|i: int, j: int| 0 <= j < i < c1.len() && #[trigger] c1[i] == dot_dot() implies #[trigger] c1[j]
            == dot_dot() by {
            assert(c1[i] == c[i] && c1[j] == c[j]);
        }
        lemma_fold_norm_fixed(c1);
        assert(c[c.len() - 1] == c.last());
        assert(good_component(c[c.len() - 1]));
        if c.last() == dot_dot() && c1.len() > 0 {
            assert(c[c1.len() - 1] == dot_dot());
            assert(c1.last() == c[c1.len() - 1]);
        }
        assert(c1.push(c.last()) =~= c);
    }
}

proof fn lemma_fold_norm_skip_empty(s: Seq<Seq<char>>)
    ensures
        fold_norm(seq![Seq::<char>::empty()] + s) == fold_norm(s),
    decreases s.len(),
{
    let t = seq![Seq::<char>::empty()] + s;
    assert(fold_norm(t) == norm_step(fold_norm(t.drop_last()), t.last()));
    if s.len() == 0 {
        assert(t.drop_last() =~= Seq::<Seq<char>>::empty());
        assert(t.last() == Seq::<char>::empty());
        assert(fold_norm(Seq::<Seq<char>>::empty()) == Seq::<Seq<char>>::empty());
    } else {
        lemma_fold_norm_skip_empty(s.drop_last());
        assert(t.drop_last() =~= seq![Seq::<char>::empty()] + s.drop_last());
        assert(t.last() == s.last());
        assert(fold_norm(s) == norm_step(fold_norm(s.drop_last()), s.last()));
    }
}

/// The components of a joined normal form are the form itself.
proof fn lemma_components_of_join(c: Seq<Seq<char>>)
    requires
        normal_components(c),
    ensures
        fold_norm(segments(join_slash(c))) == c,
{
    if c.len() == 0 {
        let e = Seq::<char>::empty();
        assert(join_slash(c) == e);
        assert(closed_segments(e) == Seq::<Seq<char>>::empty());
        assert(last_segment(e) == e);
        let t = seq![e];
        assert(segments(e) =~= t);
        assert(t.drop_last() =~= Seq::<Seq<char>>::empty());
        assert(fold_norm(t) == norm_step(fold_norm(t.drop_last()), t.last()));
        assert(fold_norm(Seq::<Seq<char>>::empty()) == Seq::<Seq<char>>::empty());
        assert(fold_norm(t) =~= c);
    } else {
        lemma_segments_of_join(c);
        lemma_fold_norm_fixed(c);
    }
}

/// What normalizing leaves: components that are not empty, hold no `/` and
/// are not `.`, with every `..` before every other component; the path is
/// those components joined with `/`, after a `/` when the input is absolute.
pub proof fn lemma_normal_form(p: Seq<char>)
    ensures
        normal_components(spec_components(p)),
        spec_normalize(p) == if is_absolute(p) {
            seq!['/'] + join_slash(spec_components(p))
        } else {
            join_slash(spec_components(p))
        },
{
    let segs = segments(p);
    lemma_closed_segments_no_slash(p);
    lemma_last_segment_no_slash(p);
    assert forall|i: int| 0 <= i < segs.len() implies !(#[trigger] segs[i]).contains('/') by {
        if i < closed_segments(p).len() {
            assert(segs[i] == closed_segments(p)[i]);
        }
    }
    lemma_fold_norm_normal(segs);
}

/// Normalizing is idempotent: a normalized path is its own normal form, so
/// an artifact spelled through `.` and `..` has one identity.
pub proof fn lemma_normalize_idempotent(p: Seq<char>)
    ensures
        spec_normalize(spec_normalize(p)) == spec_normalize(p),
{
    let segs = segments(p);
    lemma_closed_segments_no_slash(p);
    lemma_last_segment_no_slash(p);
    assert forall|i: int| 0 <= i < segs.len() implies !(#[trigger] segs[i]).contains('/') by {
        if i < closed_segments(p).len() {
            assert(segs[i] == closed_segments(p)[i]);
        }
    }
    lemma_fold_norm_normal(segs);
    let c = spec_components(p);
    let j = join_slash(c);
    lemma_components_of_join(c);
    if is_absolute(p) {
        let n = seq!['/'] + j;
        assert(n =~= Seq::<char>::empty() + seq!['/'] + j);
        lemma_segments_split(Seq::<char>::empty(), j);
        assert(closed_segments(Seq::<char>::empty()) =~= Seq::<Seq<char>>::empty());
        assert(last_segment(Seq::<char>::empty()) =~= Seq::<char>::empty());
        assert(segments(n) =~= seq![Seq::<char>::empty()] + segments(j));
        lemma_fold_norm_skip_empty(segments(j));
        assert(is_absolute(n));
    } else {
        if c.len() > 0 {
            lemma_join_starts_with(c);
        }
    }
}

/// A join of components whose first is not empty and has no `/` does not
/// start with `/`.
proof fn lemma_join_starts_with(c: Seq<Seq<char>>)
    requires
        c.len() > 0,
        c[0].len() > 0,
        !c[0].contains('/'),
    ensures
        join_slash(c).len() > 0 && join_slash(c)[0] == c[0][0],
    decreases c.len(),
{
    if c.len() > 1 {
        lemma_join_starts_with(c.drop_last());
        assert(c.drop_last()[0] == c[0]);
    }
}

/// `dir` joined with `rel`: an absolute `rel` replaces `dir`; otherwise a
/// `/` is inserted unless `dir` is empty or already ends with one.
pub open spec fn spec_join(dir: Seq<char>, rel: Seq<char>) -> Seq<char> {
    if is_absolute(rel) || dir.len() == 0 {
        rel
    } else if dir.last() == '/' {
        dir + rel
    } else {
        dir + seq!['/'] + rel
    }
}

pub fn join(dir: &str, rel: &str) -> (r: String)
    ensures
        r@ == spec_join(dir@, rel@),
{
    let d = chars_of(dir);
    let r = chars_of(rel);
    if (r.len() > 0 && r[0] == '/') || d.len() == 0 {
        return string_from_chars(r.as_slice());
    }
    let mut s = string_from_chars(d.as_slice());
    if d[d.len() - 1] != '/' {
        push_char(&mut s, '/');
    }
    push_chars(&mut s, r.as_slice());
    s
}

/// Index of the last `/` in `p`, or -1.
pub open spec fn last_slash(p: Seq<char>) -> int
    decreases p.len(),
{
    if p.len() == 0 {
        -1
    } else if p.last() == '/' {
        p.len() - 1
    } else {
        last_slash(p.drop_last())
    }
}

proof fn lemma_last_slash(p: Seq<char>)
    ensures
        -1 <= last_slash(p) < p.len(),
        last_slash(p) >= 0 ==> p[last_slash(p)] == '/',
        forall|k: int| last_slash(p) < k < p.len() ==> p[k] != '/',
    decreases p.len(),
{
    if p.len() > 0 && p.last() != '/' {
        lemma_last_slash(p.drop_last());
        assert forall|k: int| last_slash(p) < k < p.len() implies p[k] != '/' by {
            if k < p.len() - 1 {
                assert(p[k] == p.drop_last()[k]);
            }
        }
    }
}

fn find_last_slash(p: &Vec<char>) -> (r: Option<usize>)
    ensures
        match r {
            Some(k) => k == last_slash(p@),
            None => last_slash(p@) == -1,
        },
{
    let mut i: usize = p.len();
    assert(p@.take(p@.len() as int) =~= p@);
    while i > 0
        invariant
            i <= p@.len(),
            last_slash(p@) == last_slash(p@.take(i as int)),
        decreases i,
    {
        let ghost q = p@.take(i as int);
        assert(q.drop_last() =~= p@.take(i - 1));
        if p[i - 1] == '/' {
            return Some(i - 1);
        }
        i = i - 1;
    }
    assert(p@.take(0) =~= Seq::<char>::empty());
    None
}

/// The directory part of a normalized path: everything before the last `/`
/// (`/` itself when that slash is the leading one, empty when there is none).
/// The root and the empty path have no parent; they give the empty path.
pub open spec fn spec_parent(p: Seq<char>) -> Seq<char> {
    let k = last_slash(p);
    if p.len() == 0 || p == seq!['/'] || k < 0 {
        Seq::empty()
    } else if k == 0 {
        seq!['/']
    } else {
        p.take(k)
    }
}

/// The directory of a path is everything before its last `/`: for
/// `d/n` with `n` free of `/`, it is `d` (or `/` when `d` is empty and `n`
/// is not); a path without any `/` has the empty directory.
pub proof fn lemma_parent_is_before_last_slash(d: Seq<char>, n: Seq<char>)
    requires
        !n.contains('/'),
    ensures
        d.len() > 0 ==> spec_parent(d + seq!['/'] + n) == d,
        d.len() == 0 && n.len() > 0 ==> spec_parent(d + seq!['/'] + n) == seq!['/'],
        spec_parent(n) == Seq::<char>::empty(),
{
    let p = d + seq!['/'] + n;
    lemma_last_slash(p);
    let j = d.len() as int;
    assert(p[j] == '/');
    assert forall|k: int| j < k < p.len() implies p[k] != '/' by {
        assert(p[k] == n[k - j - 1]);
    }
    assert(last_slash(p) == j);
    assert(p.take(j) =~= d);
    if d.len() == 0 && n.len() > 0 {
        assert(p.len() > 1);
        assert(p != seq!['/']);
    }
    lemma_last_slash(n);
    if last_slash(n) >= 0 {
        assert(n.contains(n[last_slash(n)]));
    }
}

pub fn parent(path: &str) -> (r: String)
    ensures
        r@ == spec_parent(path@),
{
    let p = chars_of(path);
    let found = find_last_slash(&p);
    proof {
        lemma_last_slash(p@);
    }
    if p.len() == 0 || (p.len() == 1 && p[0] == '/') || found.is_none() {
        assert(p.len() == 1 && p[0] == '/' ==> p@ =~= seq!['/']);
        return String::new();
    }
    let k = found.unwrap();
    assert(p@ != seq!['/']) by {
        if p@ =~= seq!['/'] {
            assert(p@.len() == 1);
        }
    }
    if k == 0 {
        let mut s = String::new();
        push_char(&mut s, '/');
        assert(s@ =~= seq!['/']);
        return s;
    }
    let mut s = String::new();
    let mut i: usize = 0;
    while i < k
        invariant
            0 < k < p@.len(),
            i <= k,
            s@ == p@.take(i as int),
        decreases k - i,
    {
        push_char(&mut s, p[i]);
        i = i + 1;
        assert(s@ =~= p@.take(i as int));
    }
    s
}

/// The final component of a normalized path, when it names a file: not
/// empty and not `..`.
pub open spec fn spec_file_name(p: Seq<char>) -> Option<Seq<char>> {
    let name = p.subrange(last_slash(p) + 1, p.len() as int);
    if name.len() == 0 || name == dot_dot() {
        None
    } else {
        Some(name)
    }
}

/// Index of the last `.` in `s`, or -1.
pub open spec fn last_dot(s: Seq<char>) -> int
    decreases s.len(),
{
    if s.len() == 0 {
        -1
    } else if s.last() == '.' {
        s.len() - 1
    } else {
        last_dot(s.drop_last())
    }
}

/// The extension of a normalized path: what follows the last `.` of its
/// file name, when that dot is not the name's first character.
pub open spec fn spec_extension(p: Seq<char>) -> Option<Seq<char>> {
    match spec_file_name(p) {
        None => None,
        Some(name) => {
            let k = last_dot(name);
            if k <= 0 {
                None
            } else {
                Some(name.subrange(k + 1, name.len() as int))
            }
        },
    }
}

/// The file name of a normalized path without its extension.
pub open spec fn spec_file_stem(p: Seq<char>) -> Option<Seq<char>> {
    match spec_file_name(p) {
        None => None,
        Some(name) => {
            let k = last_dot(name);
            if k <= 0 {
                Some(name)
            } else {
                Some(name.take(k))
            }
        },
    }
}

proof fn lemma_last_dot(p: Seq<char>)
    ensures
        -1 <= last_dot(p) < p.len(),
    decreases p.len(),
{
    if p.len() > 0 && p.last() != '.' {
        lemma_last_dot(p.drop_last());
    }
}

fn find_last_dot(p: &Vec<char>) -> (r: Option<usize>)
    ensures
        match r {
            Some(k) => k == last_dot(p@),
            None => last_dot(p@) == -1,
        },
{
    let mut i: usize = p.len();
    assert(p@.take(p@.len() as int) =~= p@);
    while i > 0
        invariant
            i <= p@.len(),
            last_dot(p@) == last_dot(p@.take(i as int)),
        decreases i,
    {
        let ghost q = p@.take(i as int);
        assert(q.drop_last() =~= p@.take(i - 1));
        if p[i - 1] == '.' {
            return Some(i - 1);
        }
        i = i - 1;
    }
    assert(p@.take(0) =~= Seq::<char>::empty());
    None
}

fn copy_range(p: &Vec<char>, from: usize, to: usize) -> (r: Vec<char>)
    requires
        from <= to <= p@.len(),
    ensures
        r@ == p@.subrange(from as int, to as int),
{
    let mut r: Vec<char> = Vec::new();
    let mut i = from;
    while i < to
        invariant
            from <= i <= to <= p@.len(),
            r@ == p@.subrange(from as int, i as int),
        decreases to - i,
    {
        r.push(p[i]);
        i = i + 1;
        assert(r@ =~= p@.subrange(from as int, i as int));
    }
    r
}

fn file_name_chars(p: &Vec<char>) -> (r: Option<Vec<char>>)
    ensures
        match spec_file_name(p@) {
            None => r.is_none(),
            Some(n) => r.is_some() && r.unwrap()@ == n,
        },
{
    let n = p.len();
    let found = find_last_slash(p);
    proof {
        lemma_last_slash(p@);
    }
    let start = match found {
        Some(k) => {
            assert(k < n);
            k + 1
        },
        None => 0,
    };
    let name = copy_range(p, start, p.len());
    if name.len() == 0 || is_dot_dot(&name) {
        None
    } else {
        Some(name)
    }
}

/// The final component of a path, when it names a file.
pub fn file_name(path: &str) -> (r: Option<String>)
    ensures
        match spec_file_name(path@) {
            None => r is None,
            Some(n) => r is Some && r->Some_0@ == n,
        },
{
    let p = chars_of(path);
    match file_name_chars(&p) {
        Some(n) => Some(string_from_chars(n.as_slice())),
        None => None,
    }
}

pub fn extension(path: &str) -> (r: Option<String>)
    ensures
        match spec_extension(path@) {
            None => r.is_none(),
            Some(e) => r.is_some() && r.unwrap()@ == e,
        },
{
    let p = chars_of(path);
    match file_name_chars(&p) {
        None => None,
        Some(name) => {
            let found = find_last_dot(&name);
            proof {
                lemma_last_dot(name@);
            }
            if found.is_none() || found.unwrap() == 0 {
                None
            } else {
                let k = found.unwrap();
                let n = name.len();
                assert(k < n);
                let e = copy_range(&name, k + 1, n);
                Some(string_from_chars(e.as_slice()))
            }
        },
    }
}

pub fn file_stem(path: &str) -> (r: Option<String>)
    ensures
        match spec_file_stem(path@) {
            None => r.is_none(),
            Some(e) => r.is_some() && r.unwrap()@ == e,
        },
{
    let p = chars_of(path);
    match file_name_chars(&p) {
        None => None,
        Some(name) => {
            let found = find_last_dot(&name);
            proof {
                lemma_last_dot(name@);
            }
            if found.is_none() || found.unwrap() == 0 {
                Some(string_from_chars(name.as_slice()))
            } else {
                let k = found.unwrap();
                let e = copy_range(&name, 0, k);
                assert(e@ =~= name@.take(k as int));
                Some(string_from_chars(e.as_slice()))
            }
        },
    }
}

/// The `/`-separated segments of `path`, empty ones included.
pub fn split_segments(path: &str) -> (segs: Vec<Vec<char>>)
    ensures
        segs.deep_view() == segments(path@),
{
    let chars = chars_of(path);
    let ghost p = chars@;
    let mut segs: Vec<Vec<char>> = Vec::new();
    let mut cur: Vec<char> = Vec::new();
    let mut i: usize = 0;
    assert(segs.deep_view() =~= closed_segments(p.take(0)));
    assert(cur@ =~= last_segment(p.take(0)));
    while i < chars.len()
        invariant
            p == chars@,
            i <= p.len(),
            segs.deep_view() == closed_segments(p.take(i as int)),
            cur@ == last_segment(p.take(i as int)),
        decreases p.len() - i,
    {
        let c = chars[i];
        let ghost q = p.take(i as int);
        assert(p.take(i + 1) =~= q.push(c));
        assert(p.take(i + 1).drop_last() =~= q);
        if c == '/' {
            let seg = cur;
            cur = Vec::new();
            let ghost before = segs.deep_view();
            assert(seg.deep_view() =~= seg@);
            let ghost sv = seg@;
            segs.push(seg);
            assert(segs.deep_view() =~= before.push(sv));
            assert(cur@ =~= last_segment(p.take(i + 1)));
        } else {
            cur.push(c);
        }
        i = i + 1;
    }
    assert(p.take(p.len() as int) =~= p);
    let ghost before = segs.deep_view();
    assert(cur.deep_view() =~= cur@);
    let ghost cv = cur@;
    segs.push(cur);
    assert(segs.deep_view() =~= before.push(cv));
    segs
}

} // verus!
