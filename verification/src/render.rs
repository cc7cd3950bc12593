//! Diagnostic rendering: rustc-style plain text (header, `-->` origin,
//! underlined source lines, footers), one line per diagnostic, GitHub
//! workflow commands, and the records the JSON format is made of. Checks
//! never touch rendering; line and column are computed here, from byte
//! ranges, against the text of each file.

use vstd::prelude::*;

use crate::diagnostic::{spec_primary_index, Annotation, AnnotationView, Diagnostic, Severity, SubDiagnosticView, SubLevel};
use crate::facts::first_key;
use crate::pipeline::strings_view;
use crate::text::{
    chars_of, char_utf8_len, decimal, decimal_width, lemma_utf8_size_monotone, lemma_utf8_size_push,
    owned, push_char, push_decimal, push_repeat, push_str, repeat_char, str_eq, utf8_len, utf8_size,
    TextRange,
};

verus! {

/// How diagnostics are printed.
#[derive(Debug, Clone, Copy, PartialEq, Eq, Structural)]
pub enum OutputFormat {
    Full,
    Concise,
    Json,
    Github,
}

/// The message for a format name that is not one of the four.
pub open spec fn unknown_format_message(name: Seq<char>) -> Seq<char> {
    "unknown output format `"@ + name + "` (expected full, concise, json, or github)"@
}

/// The format a command-line name selects, or the error message.
pub open spec fn spec_parse_format(name: Seq<char>) -> Result<OutputFormat, Seq<char>> {
    if name == "full"@ {
        Ok(OutputFormat::Full)
    } else if name == "concise"@ {
        Ok(OutputFormat::Concise)
    } else if name == "json"@ {
        Ok(OutputFormat::Json)
    } else if name == "github"@ {
        Ok(OutputFormat::Github)
    } else {
        Err(unknown_format_message(name))
    }
}

impl OutputFormat {
    /// The format a command-line name selects.
    pub fn parse(s: &str) -> (r: Result<OutputFormat, String>)
        ensures
            match (r, spec_parse_format(s@)) {
                (Ok(f), Ok(g)) => f == g,
                (Err(m), Err(n)) => m@ == n,
                _ => false,
            },
    {
        if str_eq(s, "full") {
            Ok(OutputFormat::Full)
        } else if str_eq(s, "concise") {
            Ok(OutputFormat::Concise)
        } else if str_eq(s, "json") {
            Ok(OutputFormat::Json)
        } else if str_eq(s, "github") {
            Ok(OutputFormat::Github)
        } else {
            let mut m = owned("unknown output format `");
            push_str(&mut m, s);
            push_str(&mut m, "` (expected full, concise, json, or github)");
            Err(m)
        }
    }
}

impl std::str::FromStr for OutputFormat {
    type Err = String;

    fn from_str(s: &str) -> (r: Result<OutputFormat, String>)
        ensures
            match (r, spec_parse_format(s@)) {
                (Ok(f), Ok(g)) => f == g,
                (Err(m), Err(n)) => m@ == n,
                _ => false,
            },
    {
        OutputFormat::parse(s)
    }
}

/// The word a severity is printed as.
pub open spec fn spec_severity_tag(severity: Severity) -> Seq<char> {
    match severity {
        Severity::Warning => "warning"@,
        Severity::Error => "error"@,
    }
}

pub fn severity_tag(severity: Severity) -> (s: &'static str)
    ensures
        s@ == spec_severity_tag(severity),
{
    match severity {
        Severity::Warning => "warning",
        Severity::Error => "error",
    }
}

/// The plural ending for a count: none for exactly one.
pub open spec fn spec_plural(n: nat) -> Seq<char> {
    if n == 1 {
        ""@
    } else {
        "s"@
    }
}

pub fn plural(n: usize) -> (s: &'static str)
    ensures
        s@ == spec_plural(n as nat),
{
    if n == 1 {
        ""
    } else {
        "s"
    }
}

/// The closing line of a plain-text report.
pub open spec fn spec_summary_line(rivers: nat, errors: nat, warnings: nat) -> Seq<char> {
    "Checked "@ + decimal(rivers) + " pipeline"@ + spec_plural(rivers) + ": "@ + decimal(errors)
        + " error"@ + spec_plural(errors) + ", "@ + decimal(warnings) + " warning"@ + spec_plural(
        warnings,
    ) + "."@
}

pub fn summary_line(rivers: usize, errors: usize, warnings: usize) -> (s: String)
    ensures
        s@ == spec_summary_line(rivers as nat, errors as nat, warnings as nat),
{
    let mut s = owned("Checked ");
    push_decimal(&mut s, rivers);
    push_str(&mut s, " pipeline");
    push_str(&mut s, plural(rivers));
    push_str(&mut s, ": ");
    push_decimal(&mut s, errors);
    push_str(&mut s, " error");
    push_str(&mut s, plural(errors));
    push_str(&mut s, ", ");
    push_decimal(&mut s, warnings);
    push_str(&mut s, " warning");
    push_str(&mut s, plural(warnings));
    push_str(&mut s, ".");
    s
}

// ---------------------------------------------------------------------------
// Positions
// ---------------------------------------------------------------------------

/// Number of occurrences of `c` in `s`.
pub open spec fn count_char(s: Seq<char>, c: char) -> nat
    decreases s.len(),
{
    if s.len() == 0 {
        0
    } else {
        count_char(s.drop_last(), c) + if s.last() == c {
            1nat
        } else {
            0nat
        }
    }
}

/// Index of the last `c` in `s`, or -1.
pub open spec fn last_index_of(s: Seq<char>, c: char) -> int
    decreases s.len(),
{
    if s.len() == 0 {
        -1
    } else if s.last() == c {
        s.len() - 1
    } else {
        last_index_of(s.drop_last(), c)
    }
}

/// Index of the first `c` in `s` at or after `from`, or the length of `s`.
pub open spec fn next_index_of(s: Seq<char>, c: char, from: int) -> int
    decreases s.len() - from,
{
    if from < 0 || from >= s.len() {
        s.len() as int
    } else if s[from] == c {
        from
    } else {
        next_index_of(s, c, from + 1)
    }
}

/// The index of the character that starts at byte `b` of `s`, searching
/// from character `k`; none when `b` falls inside a character.
pub open spec fn char_index_from(s: Seq<char>, b: nat, k: int) -> Option<int>
    decreases s.len() - k,
{
    if k < 0 || k > s.len() {
        None
    } else if utf8_size(s.take(k)) == b {
        Some(k)
    } else if utf8_size(s.take(k)) > b || k == s.len() {
        None
    } else {
        char_index_from(s, b, k + 1)
    }
}

/// A byte offset, held to the end of a text of `total` bytes.
pub open spec fn clamp(b: u32, total: nat) -> nat {
    if b <= total {
        b as nat
    } else {
        total
    }
}

/// Both ends of `r`, held to the text, fall between characters of `s`.
pub open spec fn on_boundaries(s: Seq<char>, r: TextRange) -> bool {
    &&& char_index_from(s, clamp(r.start, utf8_size(s)), 0) is Some
    &&& char_index_from(s, clamp(r.end, utf8_size(s)), 0) is Some
}

/// Where a range sits in a text, for display.
pub struct PositionView {
    /// 1-based.
    pub line: nat,
    /// 1-based, in characters.
    pub column: nat,
    pub line_text: Seq<char>,
    /// Characters before the underline, and its length (at least one,
    /// cut at the end of the first line of the range).
    pub underline: (nat, nat),
}

/// The position of the characters `ks..ke` of `s`.
pub open spec fn position_at(s: Seq<char>, ks: int, ke: int) -> PositionView {
    let line_start = last_index_of(s.take(ks), '\n') + 1;
    let line_end = next_index_of(s, '\n', ks);
    let stop = if ke < line_end {
        ke
    } else {
        line_end
    };
    PositionView {
        line: count_char(s.take(ks), '\n') + 1,
        column: (ks - line_start + 1) as nat,
        line_text: s.subrange(line_start, line_end),
        underline: (
            (ks - line_start) as nat,
            if stop > ks {
                (stop - ks) as nat
            } else {
                1nat
            },
        ),
    }
}

/// The position of the byte range `r` in `s`, its ends held to the text.
pub open spec fn spec_position(s: Seq<char>, r: TextRange) -> PositionView {
    let total = utf8_size(s);
    position_at(
        s,
        char_index_from(s, clamp(r.start, total), 0)->Some_0,
        char_index_from(s, clamp(r.end, total), 0)->Some_0,
    )
}

pub struct Position {
    pub line: usize,
    pub column: usize,
    pub line_text: String,
    pub underline: (usize, usize),
}

impl View for Position {
    type V = PositionView;

    open spec fn view(&self) -> PositionView {
        PositionView {
            line: self.line as nat,
            column: self.column as nat,
            line_text: self.line_text@,
            underline: (self.underline.0 as nat, self.underline.1 as nat),
        }
    }
}

proof fn lemma_size_step(s: Seq<char>, k: int)
    requires
        0 <= k < s.len(),
    ensures
        utf8_size(s.take(k + 1)) == utf8_size(s.take(k)) + utf8_len(s[k]),
        utf8_size(s.take(k)) < utf8_size(s.take(k + 1)),
{
    assert(s.take(k + 1) =~= s.take(k).push(s[k]));
    lemma_utf8_size_push(s.take(k), s[k]);
}

proof fn lemma_char_index_total(s: Seq<char>, k: int)
    requires
        0 <= k <= s.len(),
    ensures
        char_index_from(s, utf8_size(s), k) == Some(s.len() as int),
    decreases s.len() - k,
{
    assert(s.take(s.len() as int) =~= s);
    if k < s.len() {
        lemma_size_step(s, k);
        lemma_utf8_size_monotone(s, k + 1, s.len() as int);
        lemma_char_index_total(s, k + 1);
    }
}

proof fn lemma_char_index_skip(s: Seq<char>, b: nat, i: int, k: int)
    requires
        0 <= i <= k <= s.len(),
        forall|j: int| i <= j < k ==> utf8_size(#[trigger] s.take(j)) < b,
    ensures
        char_index_from(s, b, i) == char_index_from(s, b, k),
    decreases k - i,
{
    if i < k {
        assert(utf8_size(s.take(i)) < b);
        lemma_char_index_skip(s, b, i + 1, k);
    }
}

/// The character index at byte `b` of `s`, `b` held to the text.
fn char_index(s: &Vec<char>, b: u32) -> (r: Option<usize>)
    ensures
        match char_index_from(s@, clamp(b, utf8_size(s@)), 0) {
            Some(k) => r is Some && r->Some_0 as int == k,
            None => r is None,
        },
        match r {
            Some(k) => k <= s@.len(),
            None => true,
        },
{
    let n = s.len();
    let mut k: usize = 0;
    let mut acc: u64 = 0;
    while k < n && acc < b as u64
        invariant
            n == s@.len(),
            k <= n,
            acc == utf8_size(s@.take(k as int)),
            acc <= b + 4,
            forall|j: int| 0 <= j < k ==> utf8_size(#[trigger] s@.take(j)) < b,
        decreases n - k,
    {
        proof {
            lemma_size_step(s@, k as int);
        }
        acc = acc + char_utf8_len(s[k]) as u64;
        k = k + 1;
    }
    proof {
        lemma_utf8_size_monotone(s@, k as int, n as int);
        assert(s@.take(n as int) =~= s@);
        lemma_char_index_skip(s@, b as nat, 0, k as int);
    }
    if acc == b as u64 {
        Some(k)
    } else if acc > b as u64 {
        None
    } else {
        proof {
            lemma_char_index_total(s@, 0);
        }
        Some(n)
    }
}

proof fn lemma_last_index_bounds(s: Seq<char>, c: char)
    ensures
        -1 <= last_index_of(s, c) < s.len(),
    decreases s.len(),
{
    if s.len() > 0 {
        lemma_last_index_bounds(s.drop_last(), c);
    }
}

proof fn lemma_next_index_bounds(s: Seq<char>, c: char, from: int)
    requires
        0 <= from <= s.len(),
    ensures
        from <= next_index_of(s, c, from) <= s.len(),
    decreases s.len() - from,
{
    if from < s.len() && s[from] != c {
        lemma_next_index_bounds(s, c, from + 1);
    }
}

proof fn lemma_count_char_bound(s: Seq<char>, c: char)
    ensures
        count_char(s, c) <= s.len(),
    decreases s.len(),
{
    if s.len() > 0 {
        lemma_count_char_bound(s.drop_last(), c);
    }
}

/// The characters `from..to` of `s`.
fn substring(s: &Vec<char>, from: usize, to: usize) -> (r: String)
    requires
        from <= to <= s@.len(),
    ensures
        r@ == s@.subrange(from as int, to as int),
{
    let mut r = String::new();
    let mut i = from;
    while i < to
        invariant
            from <= i <= to,
            to <= s@.len(),
            r@ == s@.subrange(from as int, i as int),
        decreases to - i,
    {
        push_char(&mut r, s[i]);
        i = i + 1;
        assert(r@ =~= s@.subrange(from as int, i as int));
    }
    r
}

/// Line, column, line text and underline of the byte range `range` in
/// `source`.
pub fn position(source: &str, range: TextRange) -> (p: Position)
    requires
        on_boundaries(source@, range),
        source@.len() < usize::MAX,
    ensures
        p@ == spec_position(source@, range),
{
    let s = chars_of(source);
    let ghost sv = s@;
    let n = s.len();
    let ks = match char_index(&s, range.start) {
        Some(k) => k,
        None => {
            return Position { line: 0, column: 0, line_text: String::new(), underline: (0, 0) };
        },
    };
    let ke = match char_index(&s, range.end) {
        Some(k) => k,
        None => {
            return Position { line: 0, column: 0, line_text: String::new(), underline: (0, 0) };
        },
    };
    // Lines before the range, and where the range's line starts.
    let mut newlines: usize = 0;
    let mut line_start: usize = 0;
    let mut i: usize = 0;
    while i < ks
        invariant
            sv == s@,
            ks <= n,
            n == sv.len(),
            i <= ks,
            newlines == count_char(sv.take(i as int), '\n'),
            line_start == last_index_of(sv.take(i as int), '\n') + 1,
            newlines <= i,
        decreases ks - i,
    {
        assert(sv.take(i + 1).drop_last() =~= sv.take(i as int));
        if s[i] == '\n' {
            newlines = newlines + 1;
            line_start = i + 1;
        }
        i = i + 1;
    }
    // Where the range's line ends.
    let mut line_end = ks;
    while line_end < n && s[line_end] != '\n'
        invariant
            sv == s@,
            n == sv.len(),
            ks <= line_end <= n,
            next_index_of(sv, '\n', ks as int) == next_index_of(sv, '\n', line_end as int),
        decreases n - line_end,
    {
        line_end = line_end + 1;
    }
    proof {
        lemma_last_index_bounds(sv.take(ks as int), '\n');
    }
    proof {
        assert(next_index_of(sv, '\n', line_end as int) == line_end);
    }
    let line_text = substring(&s, line_start, line_end);
    assert(sv.take(i as int) == sv.take(ks as int));
    let stop = if ke < line_end {
        ke
    } else {
        line_end
    };
    let len = if stop > ks {
        stop - ks
    } else {
        1
    };
    let p = Position { line: newlines + 1, column: ks - line_start + 1, line_text, underline: (ks - line_start, len) };
    proof {
        let total = utf8_size(sv);
        let kss = char_index_from(sv, clamp(range.start, total), 0)->Some_0;
        let kee = char_index_from(sv, clamp(range.end, total), 0)->Some_0;
        assert(kss == ks);
        assert(kee == ke);
        let q = position_at(sv, kss, kee);
        assert(p@.line == q.line);
        assert(p@.column == q.column);
        assert(p@.line_text == q.line_text);
        assert(p@.underline == q.underline);
    }
    p
}


// ---------------------------------------------------------------------------
// Sources
// ---------------------------------------------------------------------------

/// The text of each file a report points into, keyed by path; `None` when
/// the file could not be read. When a path is listed twice the first entry
/// counts.
pub struct Sources {
    pub files: Vec<(String, Option<String>)>,
}

impl Sources {
    pub open spec fn spec_text(&self, p: Seq<char>) -> Option<Seq<char>> {
        match first_key(self.files@, p) {
            Some(i) => match self.files@[i].1 {
                Some(t) => Some(t@),
                None => None,
            },
            None => None,
        }
    }

    /// The text of the file at `p`, when it was read.
    pub fn text(&self, p: &str) -> (r: Option<&String>)
        ensures
            match self.spec_text(p@) {
                Some(t) => r is Some && r->Some_0@ == t,
                None => r is None,
            },
    {
        let mut i: usize = 0;
        while i < self.files.len()
            invariant
                i <= self.files@.len(),
                first_key(self.files@, p@) == crate::facts::first_key_from(self.files@, p@, i as int),
            decreases self.files@.len() - i,
        {
            if str_eq(self.files[i].0.as_str(), p) {
                return match &self.files[i].1 {
                    Some(t) => Some(t),
                    None => None,
                };
            }
            i = i + 1;
        }
        None
    }
}

/// Where an annotation points, for display: none without a range or
/// without the file's text.
pub open spec fn ann_position(a: AnnotationView, src: &Sources) -> Option<PositionView> {
    match a.span.range {
        None => None,
        Some(r) => match src.spec_text(a.span.file) {
            None => None,
            Some(t) => Some(spec_position(t, r)),
        },
    }
}

/// Every annotation's range can be placed in its file's text.
pub open spec fn placeable(a: AnnotationView, src: &Sources) -> bool {
    match a.span.range {
        None => true,
        Some(r) => match src.spec_text(a.span.file) {
            None => true,
            Some(t) => on_boundaries(t, r) && t.len() < usize::MAX,
        },
    }
}

pub open spec fn renderable(ds: Seq<Diagnostic>, src: &Sources) -> bool {
    forall|i: int, j: int|
        0 <= i < ds.len() && 0 <= j < ds[i]@.annotations.len() ==> placeable(
            #[trigger] ds[i]@.annotations[j],
            src,
        )
}

/// The position of an annotation in its file, when it has one.
pub fn annotation_position(a: &Annotation, src: &Sources) -> (p: Option<Position>)
    requires
        placeable(a@, src),
    ensures
        match ann_position(a@, src) {
            Some(q) => p is Some && p->Some_0@ == q,
            None => p is None,
        },
{
    match a.span.range {
        None => None,
        Some(r) => match src.text(a.span.file.as_str()) {
            None => None,
            Some(t) => Some(position(t.as_str(), r)),
        },
    }
}

// ---------------------------------------------------------------------------
// Full format
// ---------------------------------------------------------------------------

pub open spec fn spaces(n: nat) -> Seq<char> {
    repeat_char(' ', n)
}

pub open spec fn opt_text(m: Option<Seq<char>>) -> Seq<char> {
    match m {
        Some(t) => t,
        None => Seq::empty(),
    }
}

/// Width of the line number an annotation shows; zero when it shows none.
pub open spec fn line_width(p: Option<PositionView>) -> nat {
    match p {
        Some(q) => decimal(q.line).len(),
        None => 0,
    }
}

pub open spec fn max_line_width(anns: Seq<AnnotationView>, src: &Sources) -> nat
    decreases anns.len(),
{
    if anns.len() == 0 {
        0
    } else {
        let m = max_line_width(anns.drop_last(), src);
        let w = line_width(ann_position(anns.last(), src));
        if w > m {
            w
        } else {
            m
        }
    }
}

/// Width of the gutter left of the `|`: one more than the widest line
/// number shown, or two when none is shown.
pub open spec fn spec_gutter(anns: Seq<AnnotationView>, src: &Sources) -> nat {
    let m = max_line_width(anns, src);
    (if m == 0 {
        1nat
    } else {
        m
    }) + 1
}

/// One annotation: the origin line and, when the range can be placed, the
/// source line with its underline.
pub open spec fn spec_annotation_text(a: AnnotationView, first: bool, g: nat, src: &Sources) -> Seq<char> {
    let arrow = if first {
        "-->"@
    } else {
        ":::"@
    };
    match ann_position(a, src) {
        None => spaces(g) + arrow + " "@ + a.span.file + "\n"@,
        Some(p) => {
            let w = decimal(p.line).len();
            let marker = if a.is_primary {
                '^'
            } else {
                '-'
            };
            spaces(g) + arrow + " "@ + a.span.file + ":"@ + decimal(p.line) + ":"@ + decimal(p.column)
                + "\n"@ + spaces(g) + " |\n"@ + spaces(
                if g >= w {
                    (g - w) as nat
                } else {
                    0nat
                },
            ) + decimal(p.line) + " | "@ + p.line_text + "\n"@ + spaces(g) + " | "@ + spaces(p.underline.0)
                + repeat_char(marker, p.underline.1) + " "@ + opt_text(a.message) + "\n"@ + spaces(g)
                + " |\n"@
        },
    }
}

pub open spec fn spec_annotations_text(anns: Seq<AnnotationView>, n: int, g: nat, src: &Sources) -> Seq<char>
    decreases n,
{
    if n <= 0 {
        Seq::empty()
    } else {
        spec_annotations_text(anns, n - 1, g, src) + spec_annotation_text(anns[n - 1], n - 1 == 0, g, src)
    }
}

pub open spec fn spec_sub_tag(level: SubLevel) -> Seq<char> {
    match level {
        SubLevel::Help => "help"@,
        SubLevel::Note => "note"@,
    }
}

pub open spec fn spec_subs_text(subs: Seq<SubDiagnosticView>, n: int, g: nat) -> Seq<char>
    decreases n,
{
    if n <= 0 {
        Seq::empty()
    } else {
        spec_subs_text(subs, n - 1, g) + spaces(g) + " = "@ + spec_sub_tag(subs[n - 1].level) + ": "@
            + subs[n - 1].message + "\n"@
    }
}

/// One diagnostic in the full format: header, annotations, footers, and a
/// blank line.
pub open spec fn spec_full_one(d: Diagnostic, src: &Sources) -> Seq<char> {
    let v = d@;
    let g = spec_gutter(v.annotations, src);
    spec_severity_tag(v.severity) + "["@ + d.rule.name@ + "]: "@ + v.message + "\n"@
        + spec_annotations_text(v.annotations, v.annotations.len() as int, g, src) + spec_subs_text(
        v.subs,
        v.subs.len() as int,
        g,
    ) + "\n"@
}

pub open spec fn spec_full(ds: Seq<Diagnostic>, src: &Sources) -> Seq<char>
    decreases ds.len(),
{
    if ds.len() == 0 {
        Seq::empty()
    } else {
        spec_full(ds.drop_last(), src) + spec_full_one(ds.last(), src)
    }
}

proof fn lemma_decimal_len_le(n: nat)
    requires
        n >= 1,
    ensures
        decimal(n).len() <= n,
        n >= 2 ==> decimal(n).len() < n,
    decreases n,
{
    crate::text::lemma_decimal_len_bound(n);
    if n >= 10 {
        lemma_decimal_len_le(n / 10);
    }
}

/// Width of the gutter for a diagnostic's annotations.
pub fn gutter_width(d: &Diagnostic, src: &Sources) -> (g: usize)
    requires
        forall|j: int| 0 <= j < d@.annotations.len() ==> placeable(#[trigger] d@.annotations[j], src),
    ensures
        g == spec_gutter(d@.annotations, src),
{
    let ghost anns = d@.annotations;
    let mut m: usize = 0;
    let mut i: usize = 0;
    while i < d.annotations.len()
        invariant
            anns == d@.annotations,
            i <= anns.len(),
            forall|j: int| 0 <= j < anns.len() ==> placeable(#[trigger] anns[j], src),
            m == max_line_width(anns.take(i as int), src),
            m < usize::MAX,
        decreases anns.len() - i,
    {
        assert(anns.take(i + 1).drop_last() =~= anns.take(i as int));
        assert(anns[i as int] == d.annotations@[i as int]@);
        let w = match annotation_position(&d.annotations[i], src) {
            Some(p) => {
                proof {
                    lemma_decimal_len_le(p.line as nat);
                }
                decimal_width(p.line)
            },
            None => 0,
        };
        if w > m {
            m = w;
        }
        i = i + 1;
    }
    assert(anns.take(anns.len() as int) =~= anns);
    (if m == 0 {
        1
    } else {
        m
    }) + 1
}

fn push_opt(t: &mut String, m: &Option<String>)
    ensures
        final(t)@ == old(t)@ + opt_text(crate::diagnostic::opt_view(*m)),
{
    match m {
        Some(x) => push_str(t, x.as_str()),
        None => {
            assert(old(t)@ + Seq::<char>::empty() =~= old(t)@);
        },
    }
}

/// Appends one annotation in the full format.
fn render_annotation(out: &mut String, a: &Annotation, first: bool, g: usize, src: &Sources)
    requires
        placeable(a@, src),
    ensures
        final(out)@ == old(out)@ + spec_annotation_text(a@, first, g as nat, src),
{
    let arrow = if first {
        "-->"
    } else {
        ":::"
    };
    let mut t = String::new();
    push_repeat(&mut t, ' ', g);
    assert(t@ =~= spaces(g as nat));
    push_str(&mut t, arrow);
    push_str(&mut t, " ");
    push_str(&mut t, a.span.file.as_str());
    match annotation_position(a, src) {
        None => {
            push_str(&mut t, "\n");
        },
        Some(p) => {
            let w = decimal_width(p.line);
            let marker = if a.is_primary {
                '^'
            } else {
                '-'
            };
            push_str(&mut t, ":");
            push_decimal(&mut t, p.line);
            push_str(&mut t, ":");
            push_decimal(&mut t, p.column);
            push_str(&mut t, "\n");
            push_repeat(&mut t, ' ', g);
            push_str(&mut t, " |\n");
            push_repeat(
                &mut t,
                ' ',
                if g >= w {
                    g - w
                } else {
                    0
                },
            );
            push_decimal(&mut t, p.line);
            push_str(&mut t, " | ");
            push_str(&mut t, p.line_text.as_str());
            push_str(&mut t, "\n");
            push_repeat(&mut t, ' ', g);
            push_str(&mut t, " | ");
            push_repeat(&mut t, ' ', p.underline.0);
            push_repeat(&mut t, marker, p.underline.1);
            push_str(&mut t, " ");
            push_opt(&mut t, &a.message);
            push_str(&mut t, "\n");
            push_repeat(&mut t, ' ', g);
            push_str(&mut t, " |\n");
        },
    }
    push_str(out, t.as_str());
}

fn render_full_one(out: &mut String, d: &Diagnostic, src: &Sources)
    requires
        forall|j: int| 0 <= j < d@.annotations.len() ==> placeable(#[trigger] d@.annotations[j], src),
    ensures
        final(out)@ == old(out)@ + spec_full_one(*d, src),
{
    let ghost v = d@;
    let g = gutter_width(d, src);
    let mut t = String::new();
    push_str(&mut t, severity_tag(d.severity));
    assert(t@ =~= spec_severity_tag(v.severity));
    push_str(&mut t, "[");
    push_str(&mut t, d.rule.name);
    push_str(&mut t, "]: ");
    push_str(&mut t, d.message.as_str());
    push_str(&mut t, "\n");
    let ghost head = t@;
    let mut i: usize = 0;
    while i < d.annotations.len()
        invariant
            v == d@,
            i <= v.annotations.len(),
            forall|j: int| 0 <= j < v.annotations.len() ==> placeable(#[trigger] v.annotations[j], src),
            t@ == head + spec_annotations_text(v.annotations, i as int, g as nat, src),
        decreases v.annotations.len() - i,
    {
        assert(v.annotations[i as int] == d.annotations@[i as int]@);
        let ghost before = t@;
        render_annotation(&mut t, &d.annotations[i], i == 0, g, src);
        assert(t@ =~= head + spec_annotations_text(v.annotations, i + 1, g as nat, src));
        i = i + 1;
    }
    let ghost mid = t@;
    let mut k: usize = 0;
    assert(mid =~= mid + spec_subs_text(v.subs, 0, g as nat));
    while k < d.subs.len()
        invariant
            v == d@,
            k <= v.subs.len(),
            t@ == mid + spec_subs_text(v.subs, k as int, g as nat),
        decreases v.subs.len() - k,
    {
        let sub = &d.subs[k];
        assert(v.subs[k as int] == sub@);
        let tag = match sub.level {
            SubLevel::Help => "help",
            SubLevel::Note => "note",
        };
        push_repeat(&mut t, ' ', g);
        push_str(&mut t, " = ");
        push_str(&mut t, tag);
        push_str(&mut t, ": ");
        push_str(&mut t, sub.message.as_str());
        push_str(&mut t, "\n");
        assert(t@ =~= mid + spec_subs_text(v.subs, k + 1, g as nat));
        k = k + 1;
    }
    push_str(&mut t, "\n");
    assert(t@ =~= spec_full_one(*d, src));
    push_str(out, t.as_str());
}

/// The full format: each diagnostic with its source lines underlined.
pub fn full(diagnostics: &Vec<Diagnostic>, src: &Sources) -> (out: String)
    requires
        renderable(diagnostics@, src),
    ensures
        out@ == spec_full(diagnostics@, src),
{
    let mut out = String::new();
    let mut i: usize = 0;
    assert(diagnostics@.take(0) =~= Seq::<Diagnostic>::empty());
    while i < diagnostics.len()
        invariant
            i <= diagnostics@.len(),
            renderable(diagnostics@, src),
            out@ == spec_full(diagnostics@.take(i as int), src),
        decreases diagnostics@.len() - i,
    {
        assert(diagnostics@.take(i + 1).drop_last() =~= diagnostics@.take(i as int));
        assert forall|j: int| 0 <= j < diagnostics@[i as int]@.annotations.len() implies placeable(
            #[trigger] diagnostics@[i as int]@.annotations[j],
            src,
        ) by {}
        render_full_one(&mut out, &diagnostics[i], src);
        i = i + 1;
    }
    assert(diagnostics@.take(diagnostics@.len() as int) =~= diagnostics@);
    out
}

// ---------------------------------------------------------------------------
// One-line formats
// ---------------------------------------------------------------------------

/// Where a diagnostic is located in the concise format: `file:line:col`,
/// or the file alone, or nothing without annotations.
pub open spec fn spec_concise_location(d: Diagnostic, src: &Sources) -> Seq<char> {
    match spec_primary_index(d@.annotations) {
        None => Seq::empty(),
        Some(i) => {
            let a = d@.annotations[i];
            match ann_position(a, src) {
                Some(p) => a.span.file + ":"@ + decimal(p.line) + ":"@ + decimal(p.column),
                None => a.span.file,
            }
        },
    }
}

pub open spec fn spec_concise(ds: Seq<Diagnostic>, src: &Sources) -> Seq<char>
    decreases ds.len(),
{
    if ds.len() == 0 {
        Seq::empty()
    } else {
        let d = ds.last();
        spec_concise(ds.drop_last(), src) + spec_severity_tag(d@.severity) + "["@ + d.rule.name@ + "] "@
            + spec_concise_location(d, src) + ": "@ + d@.message + "\n"@
    }
}

/// Where a diagnostic is located in a GitHub workflow command.
pub open spec fn spec_github_location(d: Diagnostic, src: &Sources) -> Seq<char> {
    match spec_primary_index(d@.annotations) {
        None => Seq::empty(),
        Some(i) => {
            let a = d@.annotations[i];
            match ann_position(a, src) {
                Some(p) => "file="@ + a.span.file + ",line="@ + decimal(p.line) + ",col="@ + decimal(
                    p.column,
                ),
                None => "file="@ + a.span.file,
            }
        },
    }
}

pub open spec fn spec_github(ds: Seq<Diagnostic>, src: &Sources) -> Seq<char>
    decreases ds.len(),
{
    if ds.len() == 0 {
        Seq::empty()
    } else {
        let d = ds.last();
        spec_github(ds.drop_last(), src) + "::"@ + spec_severity_tag(d@.severity) + " "@
            + spec_github_location(d, src) + ",title=riv ("@ + d.rule.name@ + ")::"@ + d@.message + "\n"@
    }
}

/// Appends the location of `d`, in the concise form or the GitHub form.
fn push_location(t: &mut String, d: &Diagnostic, src: &Sources, github: bool)
    requires
        forall|j: int| 0 <= j < d@.annotations.len() ==> placeable(#[trigger] d@.annotations[j], src),
    ensures
        final(t)@ == old(t)@ + if github {
            spec_github_location(*d, src)
        } else {
            spec_concise_location(*d, src)
        },
{
    match d.primary_annotation() {
        None => {
            assert(old(t)@ + Seq::<char>::empty() =~= old(t)@);
        },
        Some(a) => {
            let ghost i = spec_primary_index(d@.annotations)->Some_0;
            proof {
                crate::diagnostic::lemma_primary_index_bounds(d@.annotations);
            }
            assert(placeable(d@.annotations[i], src));
            let ghost start = t@;
            let mut u = String::new();
            if github {
                push_str(&mut u, "file=");
                assert(u@ =~= "file="@);
                push_str(&mut u, a.span.file.as_str());
            } else {
                push_str(&mut u, a.span.file.as_str());
                assert(u@ =~= a.span.file@);
            }
            match annotation_position(a, src) {
                Some(p) => {
                    push_str(
                        &mut u,
                        if github {
                            ",line="
                        } else {
                            ":"
                        },
                    );
                    push_decimal(&mut u, p.line);
                    push_str(
                        &mut u,
                        if github {
                            ",col="
                        } else {
                            ":"
                        },
                    );
                    push_decimal(&mut u, p.column);
                },
                None => {},
            }
            push_str(t, u.as_str());
        },
    }
}

/// One line per diagnostic: `severity[rule] file:line:col: message`.
pub fn concise(diagnostics: &Vec<Diagnostic>, src: &Sources) -> (out: String)
    requires
        renderable(diagnostics@, src),
    ensures
        out@ == spec_concise(diagnostics@, src),
{
    let mut out = String::new();
    let mut i: usize = 0;
    assert(diagnostics@.take(0) =~= Seq::<Diagnostic>::empty());
    while i < diagnostics.len()
        invariant
            i <= diagnostics@.len(),
            renderable(diagnostics@, src),
            out@ == spec_concise(diagnostics@.take(i as int), src),
        decreases diagnostics@.len() - i,
    {
        assert(diagnostics@.take(i + 1).drop_last() =~= diagnostics@.take(i as int));
        let d = &diagnostics[i];
        assert forall|j: int| 0 <= j < d@.annotations.len() implies placeable(
            #[trigger] d@.annotations[j],
            src,
        ) by {
            assert(d@.annotations[j] == diagnostics@[i as int]@.annotations[j]);
        }
        push_str(&mut out, severity_tag(d.severity));
        push_str(&mut out, "[");
        push_str(&mut out, d.rule.name);
        push_str(&mut out, "] ");
        push_location(&mut out, d, src, false);
        push_str(&mut out, ": ");
        push_str(&mut out, d.message.as_str());
        push_str(&mut out, "\n");
        i = i + 1;
    }
    assert(diagnostics@.take(diagnostics@.len() as int) =~= diagnostics@);
    out
}

/// One GitHub workflow command per diagnostic, so that annotations show
/// on the pull request.
pub fn github(diagnostics: &Vec<Diagnostic>, src: &Sources) -> (out: String)
    requires
        renderable(diagnostics@, src),
    ensures
        out@ == spec_github(diagnostics@, src),
{
    let mut out = String::new();
    let mut i: usize = 0;
    assert(diagnostics@.take(0) =~= Seq::<Diagnostic>::empty());
    while i < diagnostics.len()
        invariant
            i <= diagnostics@.len(),
            renderable(diagnostics@, src),
            out@ == spec_github(diagnostics@.take(i as int), src),
        decreases diagnostics@.len() - i,
    {
        assert(diagnostics@.take(i + 1).drop_last() =~= diagnostics@.take(i as int));
        let d = &diagnostics[i];
        assert forall|j: int| 0 <= j < d@.annotations.len() implies placeable(
            #[trigger] d@.annotations[j],
            src,
        ) by {
            assert(d@.annotations[j] == diagnostics@[i as int]@.annotations[j]);
        }
        push_str(&mut out, "::");
        push_str(&mut out, severity_tag(d.severity));
        push_str(&mut out, " ");
        push_location(&mut out, d, src, true);
        push_str(&mut out, ",title=riv (");
        push_str(&mut out, d.rule.name);
        push_str(&mut out, ")::");
        push_str(&mut out, d.message.as_str());
        push_str(&mut out, "\n");
        i = i + 1;
    }
    assert(diagnostics@.take(diagnostics@.len() as int) =~= diagnostics@);
    out
}

// ---------------------------------------------------------------------------
// JSON records
// ---------------------------------------------------------------------------

/// One annotation as the JSON format lists it; fields in the order the
/// format prints them.
pub struct JsonAnnotation {
    pub column: Option<usize>,
    pub file: String,
    pub line: Option<usize>,
    pub message: Option<String>,
    pub primary: bool,
}

/// One diagnostic as the JSON format lists it; fields in the order the
/// format prints them.
pub struct JsonDiagnostic {
    pub annotations: Vec<JsonAnnotation>,
    pub message: String,
    pub rule: String,
    pub severity: String,
    pub subs: Vec<String>,
}

pub struct JsonAnnotationView {
    pub column: Option<nat>,
    pub file: Seq<char>,
    pub line: Option<nat>,
    pub message: Option<Seq<char>>,
    pub primary: bool,
}

pub struct JsonDiagnosticView {
    pub annotations: Seq<JsonAnnotationView>,
    pub message: Seq<char>,
    pub rule: Seq<char>,
    pub severity: Seq<char>,
    pub subs: Seq<Seq<char>>,
}

pub open spec fn opt_nat(o: Option<usize>) -> Option<nat> {
    match o {
        Some(n) => Some(n as nat),
        None => None,
    }
}

impl View for JsonAnnotation {
    type V = JsonAnnotationView;

    open spec fn view(&self) -> JsonAnnotationView {
        JsonAnnotationView {
            column: opt_nat(self.column),
            file: self.file@,
            line: opt_nat(self.line),
            message: crate::diagnostic::opt_view(self.message),
            primary: self.primary,
        }
    }
}

impl View for JsonDiagnostic {
    type V = JsonDiagnosticView;

    open spec fn view(&self) -> JsonDiagnosticView {
        JsonDiagnosticView {
            annotations: json_annotations_view(self.annotations@),
            message: self.message@,
            rule: self.rule@,
            severity: self.severity@,
            subs: strings_view(self.subs@),
        }
    }
}

pub open spec fn json_annotations_view(s: Seq<JsonAnnotation>) -> Seq<JsonAnnotationView> {
    s.map_values(|a: JsonAnnotation| a@)
}

pub open spec fn json_diagnostics_view(s: Seq<JsonDiagnostic>) -> Seq<JsonDiagnosticView> {
    s.map_values(|j: JsonDiagnostic| j@)
}

pub open spec fn sub_messages(s: Seq<SubDiagnosticView>) -> Seq<Seq<char>> {
    s.map_values(|x: SubDiagnosticView| x.message)
}

pub open spec fn json_annotations_spec(anns: Seq<AnnotationView>, src: &Sources) -> Seq<JsonAnnotationView> {
    anns.map_values(|a: AnnotationView| spec_json_annotation(a, src))
}

pub open spec fn json_diagnostics_spec(ds: Seq<Diagnostic>, src: &Sources) -> Seq<JsonDiagnosticView> {
    ds.map_values(|d: Diagnostic| spec_json_diagnostic(d, src))
}

pub open spec fn spec_json_annotation(a: AnnotationView, src: &Sources) -> JsonAnnotationView {
    let p = ann_position(a, src);
    JsonAnnotationView {
        column: match p {
            Some(q) => Some(q.column),
            None => None,
        },
        file: a.span.file,
        line: match p {
            Some(q) => Some(q.line),
            None => None,
        },
        message: a.message,
        primary: a.is_primary,
    }
}

pub open spec fn spec_json_diagnostic(d: Diagnostic, src: &Sources) -> JsonDiagnosticView {
    JsonDiagnosticView {
        annotations: json_annotations_spec(d@.annotations, src),
        message: d@.message,
        rule: d.rule.name@,
        severity: spec_severity_tag(d@.severity),
        subs: sub_messages(d@.subs),
    }
}

fn json_annotation(a: &Annotation, src: &Sources) -> (j: JsonAnnotation)
    requires
        placeable(a@, src),
    ensures
        j@ == spec_json_annotation(a@, src),
{
    let (line, column) = match annotation_position(a, src) {
        Some(p) => (Some(p.line), Some(p.column)),
        None => (None, None),
    };
    let message = match &a.message {
        Some(m) => Some(m.clone()),
        None => None,
    };
    JsonAnnotation { column, file: a.span.file.clone(), line, message, primary: a.is_primary }
}

fn json_diagnostic(d: &Diagnostic, src: &Sources) -> (j: JsonDiagnostic)
    requires
        forall|k: int| 0 <= k < d@.annotations.len() ==> placeable(#[trigger] d@.annotations[k], src),
    ensures
        j@ == spec_json_diagnostic(*d, src),
{
    let ghost v = d@;
    let mut annotations: Vec<JsonAnnotation> = Vec::new();
    let mut i: usize = 0;
    while i < d.annotations.len()
        invariant
            v == d@,
            i <= v.annotations.len(),
            forall|k: int| 0 <= k < v.annotations.len() ==> placeable(#[trigger] v.annotations[k], src),
            json_annotations_view(annotations@) == json_annotations_spec(v.annotations.take(i as int), src),
            annotations@.len() == i,
        decreases v.annotations.len() - i,
    {
        assert(v.annotations[i as int] == d.annotations@[i as int]@);
        let j = json_annotation(&d.annotations[i], src);
        let ghost prev = annotations@;
        annotations.push(j);
        assert forall|x: int| 0 <= x < i + 1 implies #[trigger] json_annotations_view(annotations@)[x]
            == json_annotations_spec(v.annotations.take(i + 1), src)[x] by {
            if x < i {
                assert(annotations@[x] == prev[x]);
                assert(json_annotations_view(prev)[x] == json_annotations_spec(v.annotations.take(i as int), src)[x]);
            }
        }
        assert(json_annotations_view(annotations@) =~= json_annotations_spec(v.annotations.take(i + 1), src));
        i = i + 1;
    }
    assert(v.annotations.take(v.annotations.len() as int) =~= v.annotations);
    let mut subs: Vec<String> = Vec::new();
    let mut k: usize = 0;
    while k < d.subs.len()
        invariant
            v == d@,
            k <= v.subs.len(),
            strings_view(subs@) == sub_messages(v.subs.take(k as int)),
            subs@.len() == k,
        decreases v.subs.len() - k,
    {
        assert(v.subs[k as int] == d.subs@[k as int]@);
        let ghost prev = subs@;
        subs.push(d.subs[k].message.clone());
        assert forall|x: int| 0 <= x < k + 1 implies #[trigger] strings_view(subs@)[x]
            == sub_messages(v.subs.take(k + 1))[x] by {
            if x < k {
                assert(subs@[x] == prev[x]);
                assert(strings_view(prev)[x] == sub_messages(v.subs.take(k as int))[x]);
            }
        }
        assert(strings_view(subs@) =~= sub_messages(v.subs.take(k + 1)));
        k = k + 1;
    }
    assert(v.subs.take(v.subs.len() as int) =~= v.subs);
    JsonDiagnostic {
        annotations,
        message: d.message.clone(),
        rule: owned(d.rule.name),
        severity: owned(severity_tag(d.severity)),
        subs,
    }
}

/// The records of the JSON format, one per diagnostic.
pub fn json_records(diagnostics: &Vec<Diagnostic>, src: &Sources) -> (r: Vec<JsonDiagnostic>)
    requires
        renderable(diagnostics@, src),
    ensures
        json_diagnostics_view(r@) == json_diagnostics_spec(diagnostics@, src),
{
    let mut r: Vec<JsonDiagnostic> = Vec::new();
    let mut i: usize = 0;
    while i < diagnostics.len()
        invariant
            i <= diagnostics@.len(),
            renderable(diagnostics@, src),
            json_diagnostics_view(r@) == json_diagnostics_spec(diagnostics@.take(i as int), src),
            r@.len() == i,
        decreases diagnostics@.len() - i,
    {
        let d = &diagnostics[i];
        assert forall|k: int| 0 <= k < d@.annotations.len() implies placeable(
            #[trigger] d@.annotations[k],
            src,
        ) by {
            assert(d@.annotations[k] == diagnostics@[i as int]@.annotations[k]);
        }
        let j = json_diagnostic(d, src);
        let ghost prev = r@;
        r.push(j);
        assert forall|x: int| 0 <= x < i + 1 implies #[trigger] json_diagnostics_view(r@)[x]
            == json_diagnostics_spec(diagnostics@.take(i + 1), src)[x] by {
            if x < i {
                assert(r@[x] == prev[x]);
                assert(json_diagnostics_view(prev)[x] == json_diagnostics_spec(diagnostics@.take(i as int), src)[x]);
            }
        }
        assert(json_diagnostics_view(r@) =~= json_diagnostics_spec(diagnostics@.take(i + 1), src));
        i = i + 1;
    }
    assert(diagnostics@.take(diagnostics@.len() as int) =~= diagnostics@);
    r
}

/// A rendered report: text, or the records the JSON format serializes.
pub enum Rendered {
    Text(String),
    Json(Vec<JsonDiagnostic>),
}

/// Render diagnostics in the given format.
pub fn render_to_string(diagnostics: &Vec<Diagnostic>, format: OutputFormat, src: &Sources) -> (r: Rendered)
    requires
        renderable(diagnostics@, src),
    ensures
        match (format, r) {
            (OutputFormat::Full, Rendered::Text(t)) => t@ == spec_full(diagnostics@, src),
            (OutputFormat::Concise, Rendered::Text(t)) => t@ == spec_concise(diagnostics@, src),
            (OutputFormat::Github, Rendered::Text(t)) => t@ == spec_github(diagnostics@, src),
            (OutputFormat::Json, Rendered::Json(j)) => json_diagnostics_view(j@)
                == json_diagnostics_spec(diagnostics@, src),
            _ => false,
        },
{
    match format {
        OutputFormat::Full => Rendered::Text(full(diagnostics, src)),
        OutputFormat::Concise => Rendered::Text(concise(diagnostics, src)),
        OutputFormat::Json => Rendered::Json(json_records(diagnostics, src)),
        OutputFormat::Github => Rendered::Text(github(diagnostics, src)),
    }
}

/// Whether every annotation's range can be placed in its file's text; a
/// report can be rendered only then.
pub fn can_render(diagnostics: &Vec<Diagnostic>, src: &Sources) -> (b: bool)
    ensures
        b == renderable(diagnostics@, src),
{
    let mut i: usize = 0;
    while i < diagnostics.len()
        invariant
            i <= diagnostics@.len(),
            forall|x: int, y: int|
                0 <= x < i && 0 <= y < diagnostics@[x]@.annotations.len() ==> placeable(
                    #[trigger] diagnostics@[x]@.annotations[y],
                    src,
                ),
        decreases diagnostics@.len() - i,
    {
        let d = &diagnostics[i];
        let mut k: usize = 0;
        while k < d.annotations.len()
            invariant
                i < diagnostics@.len(),
                d == diagnostics@[i as int],
                k <= d@.annotations.len(),
                forall|y: int| 0 <= y < k ==> placeable(#[trigger] d@.annotations[y], src),
            decreases d@.annotations.len() - k,
        {
            let a = &d.annotations[k];
            assert(a@ == d@.annotations[k as int]);
            if !annotation_placeable(a, src) {
                return false;
            }
            k = k + 1;
        }
        i = i + 1;
    }
    true
}

fn annotation_placeable(a: &Annotation, src: &Sources) -> (b: bool)
    ensures
        b == placeable(a@, src),
{
    match a.span.range {
        None => true,
        Some(r) => match src.text(a.span.file.as_str()) {
            None => true,
            Some(t) => {
                let chars = chars_of(t.as_str());
                if chars.len() == usize::MAX {
                    return false;
                }
                char_index(&chars, r.start).is_some() && char_index(&chars, r.end).is_some()
            },
        },
    }
}

} // verus!
