//! Rule identity: flat kebab-case names with static metadata.
//! No alphanumeric codes: names are self-documenting in output and config.

use vstd::prelude::*;

verus! {

/// The level a rule reports at. Severity is the gradual-typing ratchet:
/// `strict: true` in a river promotes `unannotated-io` from Warn to Error.
#[derive(Debug, Clone, Copy, PartialEq, Eq, PartialOrd, Ord, Structural)]
pub enum Level {
    Ignore,
    Warn,
    Error,
}

impl Level {
    /// The word a level is printed as.
    pub fn as_str(&self) -> (s: &'static str)
        ensures
            *self == Level::Ignore ==> s@ == "ignore"@,
            *self == Level::Warn ==> s@ == "warning"@,
            *self == Level::Error ==> s@ == "error"@,
    {
        match self {
            Level::Ignore => "ignore",
            Level::Warn => "warning",
            Level::Error => "error",
        }
    }
}

/// Which rule a diagnostic belongs to.
#[derive(Debug, Clone, Copy, PartialEq, Eq, Structural)]
pub enum RuleId {
    UnannotatedIo,
    ConsumeBeforeProduce,
    SchemaMismatch,
    Cycle,
    MissingStep,
    InvalidPipeline,
    InvalidSyntax,
}

/// Static metadata for a named rule.
#[derive(Debug, Clone, Copy)]
pub struct Rule {
    pub id: RuleId,
    pub name: &'static str,
    pub summary: &'static str,
    pub default_level: Level,
}

/// The level each rule reports at unless a river is strict.
pub open spec fn spec_default_level(id: RuleId) -> Level {
    match id {
        RuleId::UnannotatedIo => Level::Warn,
        _ => Level::Error,
    }
}

/// The kebab-case name of each rule.
pub open spec fn spec_rule_name(id: RuleId) -> Seq<char> {
    match id {
        RuleId::UnannotatedIo => "unannotated-io"@,
        RuleId::ConsumeBeforeProduce => "consume-before-produce"@,
        RuleId::SchemaMismatch => "schema-mismatch"@,
        RuleId::Cycle => "cycle"@,
        RuleId::MissingStep => "missing-step"@,
        RuleId::InvalidPipeline => "invalid-pipeline"@,
        RuleId::InvalidSyntax => "invalid-syntax"@,
    }
}

impl Rule {
    /// A rule value as the registry declares it.
    pub open spec fn is_declared(self) -> bool {
        &&& self.default_level == spec_default_level(self.id)
        &&& self.name@ == spec_rule_name(self.id)
    }

    /// The declared rule with identity `id`.
    pub fn of(id: RuleId) -> (r: Rule)
        ensures
            r.id == id,
            r.is_declared(),
    {
        match id {
            RuleId::UnannotatedIo => unannotated_io(),
            RuleId::ConsumeBeforeProduce => consume_before_produce(),
            RuleId::SchemaMismatch => schema_mismatch(),
            RuleId::Cycle => cycle(),
            RuleId::MissingStep => missing_step(),
            RuleId::InvalidPipeline => invalid_pipeline(),
            RuleId::InvalidSyntax => invalid_syntax(),
        }
    }
}

/// A bare `riv_in()`/`riv_out()` with no schema attached. The gradual-typing
/// warning: the call works, but the artifact is invisible to the checker.
/// `Untyped.riv_out(...)` is the legal escape hatch and emits nothing.
pub fn unannotated_io() -> (r: Rule)
    ensures
        r.id == RuleId::UnannotatedIo,
        r.is_declared(),
{
    Rule {
        id: RuleId::UnannotatedIo,
        name: "unannotated-io",
        summary: "detects riv_in/riv_out calls without a schema",
        default_level: Level::Warn,
    }
}

/// A step consumes an artifact that no earlier step produces. The `steps:`
/// list is ordered and authoritative; riv does not reorder steps.
pub fn consume_before_produce() -> (r: Rule)
    ensures
        r.id == RuleId::ConsumeBeforeProduce,
        r.is_declared(),
{
    Rule {
        id: RuleId::ConsumeBeforeProduce,
        name: "consume-before-produce",
        summary: "detects artifacts consumed before any step produces them",
        default_level: Level::Error,
    }
}

/// Producer and consumer of the same artifact disagree on the schema
/// symbol. Matching is name-level (`schemas.UsersDf`).
pub fn schema_mismatch() -> (r: Rule)
    ensures
        r.id == RuleId::SchemaMismatch,
        r.is_declared(),
{
    Rule {
        id: RuleId::SchemaMismatch,
        name: "schema-mismatch",
        summary: "detects producer/consumer schema disagreement on an artifact",
        default_level: Level::Error,
    }
}

/// A river includes itself, directly or through other rivers.
pub fn cycle() -> (r: Rule)
    ensures
        r.id == RuleId::Cycle,
        r.is_declared(),
{
    Rule {
        id: RuleId::Cycle,
        name: "cycle",
        summary: "detects pipelines that include themselves",
        default_level: Level::Error,
    }
}

/// A step listed in a river does not exist on disk.
pub fn missing_step() -> (r: Rule)
    ensures
        r.id == RuleId::MissingStep,
        r.is_declared(),
{
    Rule {
        id: RuleId::MissingStep,
        name: "missing-step",
        summary: "detects steps whose file does not exist",
        default_level: Level::Error,
    }
}

/// A river YAML that cannot be read as a river (bad shape, bad step kind).
/// Untyped riv is valid riv; unreadable riv is not.
pub fn invalid_pipeline() -> (r: Rule)
    ensures
        r.id == RuleId::InvalidPipeline,
        r.is_declared(),
{
    Rule {
        id: RuleId::InvalidPipeline,
        name: "invalid-pipeline",
        summary: "detects malformed pipeline files",
        default_level: Level::Error,
    }
}

/// A step's Python source does not parse. The checker cannot see its IO.
pub fn invalid_syntax() -> (r: Rule)
    ensures
        r.id == RuleId::InvalidSyntax,
        r.is_declared(),
{
    Rule {
        id: RuleId::InvalidSyntax,
        name: "invalid-syntax",
        summary: "detects Python steps that fail to parse",
        default_level: Level::Error,
    }
}

/// Every rule the checker knows, in declaration order.
pub fn registry() -> (rules: Vec<Rule>)
    ensures
        rules@.len() == 7,
        forall|i: int| 0 <= i < 7 ==> (#[trigger] rules@[i]).is_declared(),
        rules@[0].id == RuleId::UnannotatedIo,
        rules@[1].id == RuleId::ConsumeBeforeProduce,
        rules@[2].id == RuleId::SchemaMismatch,
        rules@[3].id == RuleId::Cycle,
        rules@[4].id == RuleId::MissingStep,
        rules@[5].id == RuleId::InvalidPipeline,
        rules@[6].id == RuleId::InvalidSyntax,
{
    let mut rules = Vec::new();
    rules.push(unannotated_io());
    rules.push(consume_before_produce());
    rules.push(schema_mismatch());
    rules.push(cycle());
    rules.push(missing_step());
    rules.push(invalid_pipeline());
    rules.push(invalid_syntax());
    rules
}

} // verus!
