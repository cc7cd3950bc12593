//! What the checker knows about the filesystem. Checking is a pure function
//! of the rivers to check and these facts; a fact the checker needs but does
//! not have is returned as a [`Query`], and the caller answers it and checks
//! again.

use vstd::prelude::*;

use crate::pipeline::PipelineDoc;
use crate::python::{PyEvent, SyntaxError};
use crate::text::str_eq;

verus! {

/// What reading and parsing a river YAML gave.
pub enum PipelineLoad {
    /// The file could not be read; the reader's error text.
    Unreadable(String),
    /// The file's text, and either its document or the parser's error text.
    Read { source: String, doc: Result<PipelineDoc, String> },
}

/// What reading and parsing a Python step gave.
pub enum ScriptLoad {
    /// The file could not be read; the reader's error text.
    Unreadable(String),
    /// The file's text, and either its IO-relevant syntax events in visit
    /// order or the parser's error.
    Read { source: String, parsed: Result<Vec<PyEvent>, SyntaxError> },
}

/// A fact the checker needs, named by a normalized path.
#[derive(Debug, Clone, PartialEq, Eq)]
pub enum Query {
    /// Is there a regular file at this path?
    IsFile(String),
    /// Read and parse the river YAML at this path.
    LoadPipeline(String),
    /// Read and parse the Python step at this path.
    LoadScript(String),
}

pub enum QueryView {
    IsFile(Seq<char>),
    LoadPipeline(Seq<char>),
    LoadScript(Seq<char>),
}

impl View for Query {
    type V = QueryView;

    open spec fn view(&self) -> QueryView {
        match self {
            Query::IsFile(p) => QueryView::IsFile(p@),
            Query::LoadPipeline(p) => QueryView::LoadPipeline(p@),
            Query::LoadScript(p) => QueryView::LoadScript(p@),
        }
    }
}

pub open spec fn queries_view(s: Seq<Query>) -> Seq<QueryView> {
    s.map_values(|q: Query| q@)
}

/// Answers gathered so far, each keyed by a normalized path. When a path
/// is answered more than once the first answer counts.
pub struct Facts {
    pub files: Vec<(String, bool)>,
    pub pipelines: Vec<(String, PipelineLoad)>,
    pub scripts: Vec<(String, ScriptLoad)>,
}

/// Index of the first entry of `s` keyed by `k`, from `from` on.
pub open spec fn first_key_from<T>(s: Seq<(String, T)>, k: Seq<char>, from: int) -> Option<int>
    decreases s.len() - from,
{
    if from < 0 || from >= s.len() {
        None
    } else if s[from].0@ == k {
        Some(from)
    } else {
        first_key_from(s, k, from + 1)
    }
}

pub open spec fn first_key<T>(s: Seq<(String, T)>, k: Seq<char>) -> Option<int> {
    first_key_from(s, k, 0)
}

pub proof fn lemma_first_key_from<T>(s: Seq<(String, T)>, k: Seq<char>, from: int)
    requires
        0 <= from,
    ensures
        match first_key_from(s, k, from) {
            Some(i) => from <= i < s.len() && s[i].0@ == k && forall|j: int|
                from <= j < i ==> s[j].0@ != k,
            None => forall|j: int| from <= j < s.len() ==> s[j].0@ != k,
        },
    decreases s.len() - from,
{
    if from < s.len() && s[from].0@ != k {
        lemma_first_key_from(s, k, from + 1);
    }
}

impl Facts {
    pub fn new() -> (f: Facts)
        ensures
            f.files@.len() == 0,
            f.pipelines@.len() == 0,
            f.scripts@.len() == 0,
    {
        Facts { files: Vec::new(), pipelines: Vec::new(), scripts: Vec::new() }
    }

    /// Whether a regular file exists at `p`, when known.
    pub open spec fn spec_is_file(&self, p: Seq<char>) -> Option<bool> {
        match first_key(self.files@, p) {
            Some(i) => Some(self.files@[i].1),
            None => None,
        }
    }

    /// The load answered for the river YAML at `p`, when known.
    pub open spec fn spec_pipeline(&self, p: Seq<char>) -> Option<&PipelineLoad> {
        match first_key(self.pipelines@, p) {
            Some(i) => Some(&self.pipelines@[i].1),
            None => None,
        }
    }

    /// The load answered for the Python step at `p`, when known.
    pub open spec fn spec_script(&self, p: Seq<char>) -> Option<&ScriptLoad> {
        match first_key(self.scripts@, p) {
            Some(i) => Some(&self.scripts@[i].1),
            None => None,
        }
    }

    pub fn is_file(&self, p: &str) -> (r: Option<bool>)
        ensures
            r == self.spec_is_file(p@),
    {
        let mut i: usize = 0;
        while i < self.files.len()
            invariant
                i <= self.files@.len(),
                first_key(self.files@, p@) == first_key_from(self.files@, p@, i as int),
            decreases self.files@.len() - i,
        {
            if str_eq(self.files[i].0.as_str(), p) {
                return Some(self.files[i].1);
            }
            i = i + 1;
        }
        None
    }

    pub fn pipeline(&self, p: &str) -> (r: Option<&PipelineLoad>)
        ensures
            r == self.spec_pipeline(p@),
    {
        let mut i: usize = 0;
        while i < self.pipelines.len()
            invariant
                i <= self.pipelines@.len(),
                first_key(self.pipelines@, p@) == first_key_from(self.pipelines@, p@, i as int),
            decreases self.pipelines@.len() - i,
        {
            if str_eq(self.pipelines[i].0.as_str(), p) {
                return Some(&self.pipelines[i].1);
            }
            i = i + 1;
        }
        None
    }

    pub fn script(&self, p: &str) -> (r: Option<&ScriptLoad>)
        ensures
            r == self.spec_script(p@),
    {
        let mut i: usize = 0;
        while i < self.scripts.len()
            invariant
                i <= self.scripts@.len(),
                first_key(self.scripts@, p@) == first_key_from(self.scripts@, p@, i as int),
            decreases self.scripts@.len() - i,
        {
            if str_eq(self.scripts[i].0.as_str(), p) {
                return Some(&self.scripts[i].1);
            }
            i = i + 1;
        }
        None
    }
}

} // verus!
