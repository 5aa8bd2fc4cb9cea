//! Rule set validation and compilation.

use crate::catalog::{text_option, Catalog, CatalogModel, Signal, ValueKind};
use crate::condition::{accepted, condition_fault, Condition, ConditionModel};
use crate::double::Double;
use crate::ruleset::{rule_models, Mode, Rule, RuleModel, RuleSet, RuleSetModel, ANY_MODEL};
use crate::text::{decimal, decimal_text, is_word, is_word_char, same_text};

use vstd::prelude::*;

verus! {

pub const MAX_RULES: usize = 256;

pub const MIN_INTERVAL_MS: u64 = 100;

/// How a rule logs, with its settings filled in.
#[derive(Debug, Clone, Copy)]
pub enum Behaviour {
    OnChange { deadband: Double },
    Periodic { interval_ms: u64, max_age_ms: u64 },
}

/// A validated rule, ready for the engine.
#[derive(Debug)]
pub struct CompiledRule {
    def: Rule,
    condition: Option<Condition>,
    unit: Option<String>,
    behaviour: Behaviour,
}

/// The content of a [`CompiledRule`].
pub struct CompiledModel {
    pub def: RuleModel,
    pub condition: Option<ConditionModel>,
    pub unit: Option<Seq<char>>,
    pub behaviour: Behaviour,
}

impl View for CompiledRule {
    type V = CompiledModel;

    closed spec fn view(&self) -> CompiledModel {
        CompiledModel {
            def: self.def@,
            condition: match self.condition {
                Some(c) => Some(c@),
                None => None,
            },
            unit: text_option(self.unit),
            behaviour: self.behaviour,
        }
    }
}

impl CompiledRule {
    pub fn def(&self) -> (r: &Rule)
        ensures
            r@ == self@.def,
    {
        &self.def
    }

    pub fn id(&self) -> (r: &str)
        ensures
            r@ == self@.def.id,
    {
        self.def.id.as_str()
    }

    pub fn condition(&self) -> (r: Option<&Condition>)
        ensures
            r is Some <==> self@.condition is Some,
            r matches Some(c) ==> self@.condition == Some(c@),
    {
        match &self.condition {
            Some(c) => Some(c),
            None => None,
        }
    }

    pub fn unit(&self) -> (r: Option<&String>)
        ensures
            r is Some <==> self@.unit is Some,
            r matches Some(u) ==> self@.unit == Some(u@),
    {
        match &self.unit {
            Some(u) => Some(u),
            None => None,
        }
    }

    pub fn behaviour(&self) -> (r: Behaviour)
        ensures
            r == self@.behaviour,
    {
        self.behaviour
    }
}

/// Why a rule set is rejected.
#[derive(Debug, Clone, PartialEq)]
pub enum ValidationError {
    NotNewer { got: u64, active: u64 },
    ModelMismatch { got: String, vehicle: String },
    TooManyRules(usize),
    InvalidRule { rule: String, reason: String },
    InvalidCondition { rule: String, reason: String },
    Internal(String),
}

/// A problem of a rule set, which a [`ValidationError`] reports.
pub enum Problem {
    NotNewer { got: u64, active: u64 },
    ModelMismatch { got: Seq<char>, vehicle: Seq<char> },
    TooManyRules(usize),
    InvalidRule { rule: Seq<char>, reason: Seq<char> },
    InvalidCondition { rule: Seq<char>, reason: Seq<char> },
    Internal(Seq<char>),
}

impl ValidationError {
    /// Whether this error reports a problem, and no other.
    pub open spec fn reports(self, problem: Problem) -> bool {
        match (self, problem) {
            (
                ValidationError::NotNewer { got, active },
                Problem::NotNewer { got: g, active: a },
            ) => got == g && active == a,
            (
                ValidationError::ModelMismatch { got, vehicle },
                Problem::ModelMismatch { got: g, vehicle: v },
            ) => got@ == g && vehicle@ == v,
            (ValidationError::TooManyRules(n), Problem::TooManyRules(m)) => n == m,
            (
                ValidationError::InvalidRule { rule, reason },
                Problem::InvalidRule { rule: r, reason: why },
            ) => rule@ == r && reason@ == why,
            (
                ValidationError::InvalidCondition { rule, reason },
                Problem::InvalidCondition { rule: r, reason: why },
            ) => rule@ == r && reason@ == why,
            (ValidationError::Internal(t), Problem::Internal(u)) => t@ == u,
            _ => false,
        }
    }

    pub open spec fn label(self) -> Seq<char> {
        match self {
            ValidationError::NotNewer { .. } => "not_newer"@,
            ValidationError::ModelMismatch { .. } => "model_mismatch"@,
            ValidationError::TooManyRules(_) => "too_many_rules"@,
            ValidationError::InvalidRule { .. } => "invalid_rule"@,
            ValidationError::InvalidCondition { .. } => "invalid_condition"@,
            ValidationError::Internal(_) => "internal"@,
        }
    }

    /// Metric label for `telemetryd_ruleset_update_failures_total{reason}`.
    pub fn reason(&self) -> (r: &'static str)
        ensures
            r@ == self.label(),
    {
        match self {
            ValidationError::NotNewer { .. } => "not_newer",
            ValidationError::ModelMismatch { .. } => "model_mismatch",
            ValidationError::TooManyRules(_) => "too_many_rules",
            ValidationError::InvalidRule { .. } => "invalid_rule",
            ValidationError::InvalidCondition { .. } => "invalid_condition",
            ValidationError::Internal(_) => "internal",
        }
    }

    /// The error in words.
    pub open spec fn words(self) -> Seq<char> {
        match self {
            ValidationError::NotNewer { got, active } => "ruleset_version "@ + decimal(got as int)
                + " is not newer than the active version "@ + decimal(active as int),
            ValidationError::ModelMismatch { got, vehicle } => "rule set model '"@ + got@
                + "' does not match vehicle model '"@ + vehicle@ + "'"@,
            ValidationError::TooManyRules(n) => decimal(n as int)
                + " rules exceeds the limit of 256"@,
            ValidationError::InvalidRule { rule, reason } => "rule '"@ + rule@ + "': "@ + reason@,
            ValidationError::InvalidCondition { rule, reason } => "rule '"@ + rule@
                + "': condition: "@ + reason@,
            ValidationError::Internal(t) => "internal error: "@ + t@,
        }
    }

    /// The error in words.
    pub fn message(&self) -> (r: String)
        ensures
            r@ == self.words(),
    {
        let mut r: String = String::new();
        match self {
            ValidationError::NotNewer { got, active } => {
                r.append("ruleset_version ");
                r.append(decimal_text(*got as i128).as_str());
                r.append(" is not newer than the active version ");
                r.append(decimal_text(*active as i128).as_str());
            },
            ValidationError::ModelMismatch { got, vehicle } => {
                r.append("rule set model '");
                r.append(got.as_str());
                r.append("' does not match vehicle model '");
                r.append(vehicle.as_str());
                r.append("'");
            },
            ValidationError::TooManyRules(n) => {
                r.append(decimal_text(*n as i128).as_str());
                r.append(" rules exceeds the limit of 256");
            },
            ValidationError::InvalidRule { rule, reason } => {
                r.append("rule '");
                r.append(rule.as_str());
                r.append("': ");
                r.append(reason.as_str());
            },
            ValidationError::InvalidCondition { rule, reason } => {
                r.append("rule '");
                r.append(rule.as_str());
                r.append("': condition: ");
                r.append(reason.as_str());
            },
            ValidationError::Internal(t) => {
                r.append("internal error: ");
                r.append(t.as_str());
            },
        }
        assert(r@ =~= self.words());
        r
    }
}

/// Every problem found in a rule set; the whole set is rejected if non-empty.
#[derive(Debug, Clone, PartialEq)]
pub struct ValidationErrors(pub Vec<ValidationError>);

/// The errors from number `i` on, in words, separated by semicolons.
pub open spec fn words_from(errors: Seq<ValidationError>, i: nat) -> Seq<char>
    decreases errors.len() - i,
{
    if i >= errors.len() {
        Seq::empty()
    } else {
        (if i > 0 {
            "; "@
        } else {
            ""@
        }) + errors[i as int].words() + words_from(errors, i + 1)
    }
}

impl ValidationErrors {
    /// Metric label of the first error.
    pub fn reason(&self) -> (r: &'static str)
        ensures
            r@ == if self.0@.len() == 0 {
                "internal"@
            } else {
                self.0@[0].label()
            },
    {
        if self.0.len() == 0 {
            "internal"
        } else {
            self.0[0].reason()
        }
    }

    /// The errors in words.
    pub fn message(&self) -> (r: String)
        ensures
            r@ == words_from(self.0@, 0),
    {
        let mut r: String = String::new();
        let mut i: usize = 0;
        assert(r@ + words_from(self.0@, 0) =~= words_from(self.0@, 0));
        while i < self.0.len()
            invariant
                i <= self.0@.len(),
                r@ + words_from(self.0@, i as nat) == words_from(self.0@, 0),
            decreases self.0@.len() - i,
        {
            let ghost before = r@;
            if i > 0 {
                r.append("; ");
            } else {
                r.append("");
            }
            r.append(self.0[i].message().as_str());
            assert(r@ + words_from(self.0@, i as nat + 1) =~= before + words_from(
                self.0@,
                i as nat,
            ));
            i = i + 1;
        }
        assert(r@ + words_from(self.0@, i as nat) =~= r@);
        r
    }
}

/// Whether the errors report the problems, one for one.
pub open spec fn all_reported(errors: Seq<ValidationError>, problems: Seq<Problem>) -> bool {
    &&& errors.len() == problems.len()
    &&& forall|i: int| 0 <= i < errors.len() ==> (#[trigger] errors[i]).reports(problems[i])
}

/// Matches `^[a-z0-9_]{1,64}$`.
pub open spec fn valid_rule_id(id: Seq<char>) -> bool {
    &&& 1 <= id.len() <= 64
    &&& forall|i: int| 0 <= i < id.len() ==> is_word_char(#[trigger] id[i])
}

/// Returns true if `id` matches `^[a-z0-9_]{1,64}$`.
pub fn is_valid_rule_id(id: &str) -> (r: bool)
    ensures
        r == valid_rule_id(id@),
{
    let n: usize = id.unicode_len();
    1 <= n && n <= 64 && is_word(id)
}

/// What is wrong with the fields of a rule for its mode, if anything, where
/// its signal is of the given kind.
pub open spec fn mode_fault(rule: RuleModel, kind: ValueKind) -> Option<Seq<char>> {
    match rule.mode {
        Mode::OnChange => if rule.interval_ms is Some || rule.max_age_ms is Some {
            Some("interval_ms and max_age_ms apply only to periodic rules"@)
        } else {
            match rule.deadband {
                Some(d) => if !d.finite() || d.less(Double { bits: 0 }) {
                    Some("deadband must be a finite number >= 0"@)
                } else if !(kind is Num) {
                    Some("deadband applies only to numeric signals"@)
                } else {
                    None
                },
                None => None,
            }
        },
        Mode::Periodic => if rule.deadband is Some {
            Some("deadband applies only to on_change rules"@)
        } else {
            match rule.interval_ms {
                None => Some("periodic rules require interval_ms"@),
                Some(interval) => if interval < MIN_INTERVAL_MS {
                    Some("interval_ms must be >= 100"@)
                } else if rule.max_age_ms == Some(0u64) {
                    Some("max_age_ms must be > 0"@)
                } else {
                    None
                },
            }
        },
    }
}

/// How a rule without faults logs: a missing deadband is zero, a missing age
/// limit is three intervals.
pub open spec fn behaviour_of(rule: RuleModel) -> Behaviour {
    match rule.mode {
        Mode::OnChange => Behaviour::OnChange {
            deadband: match rule.deadband {
                Some(d) => d,
                None => Double { bits: 0 },
            },
        },
        Mode::Periodic => {
            let interval_ms = rule.interval_ms->0;
            Behaviour::Periodic {
                interval_ms,
                max_age_ms: match rule.max_age_ms {
                    Some(age) => age,
                    None => if 3 * interval_ms > u64::MAX {
                        u64::MAX
                    } else {
                        (3 * interval_ms) as u64
                    },
                },
            }
        },
    }
}

/// What is wrong with the id or the fields of a rule, if anything: the first
/// fault that there is.
pub open spec fn field_problem(rule: RuleModel, catalog: CatalogModel) -> Option<Problem> {
    if !valid_rule_id(rule.id) {
        Some(Problem::InvalidRule { rule: rule.id, reason: "id must match ^[a-z0-9_]{1,64}$"@ })
    } else {
        match catalog.find_name(rule.signal) {
            None => Some(
                Problem::InvalidRule {
                    rule: rule.id,
                    reason: "unknown signal '"@ + rule.signal + "'"@,
                },
            ),
            Some(def) => match mode_fault(rule, def.kind()) {
                Some(reason) => Some(Problem::InvalidRule { rule: rule.id, reason }),
                None => None,
            },
        }
    }
}

/// What is wrong with the condition of a rule, if anything.
pub open spec fn condition_problem(rule: RuleModel, catalog: CatalogModel) -> Option<Problem> {
    match rule.condition {
        None => None,
        Some(source) => match condition_fault(source, catalog) {
            Some(reason) => Some(Problem::InvalidCondition { rule: rule.id, reason }),
            None => None,
        },
    }
}

/// What is wrong with a rule on its own, if anything: with its id or its
/// fields, or else with its condition.
pub open spec fn rule_problem(rule: RuleModel, catalog: CatalogModel) -> Option<Problem> {
    match field_problem(rule, catalog) {
        Some(problem) => Some(problem),
        None => condition_problem(rule, catalog),
    }
}

/// Whether a compiled rule is what a rule without problems compiles to.
pub open spec fn compiled_from(
    compiled: CompiledModel,
    rule: RuleModel,
    catalog: CatalogModel,
) -> bool {
    &&& compiled.def == rule
    &&& catalog.find_name(rule.signal) matches Some(def) && compiled.unit == def.unit
    &&& compiled.behaviour == behaviour_of(rule)
    &&& match rule.condition {
        None => compiled.condition is None,
        Some(source) => compiled.condition matches Some(c) && c.source == source && accepted(
            c,
            catalog,
        ),
    }
}

fn invalid(rule: &Rule, reason: &str) -> (r: ValidationError)
    ensures
        r.reports(Problem::InvalidRule { rule: rule@.id, reason: reason@ }),
{
    ValidationError::InvalidRule { rule: rule.id.clone(), reason: reason.to_owned() }
}

/// How a rule logs, if its fields suit its mode and its signal's kind.
fn rule_behaviour(rule: &Rule, kind: ValueKind) -> (r: Result<Behaviour, &'static str>)
    ensures
        match r {
            Ok(b) => mode_fault(rule@, kind) is None && b == behaviour_of(rule@),
            Err(reason) => mode_fault(rule@, kind) == Some(reason@),
        },
{
    match rule.mode {
        Mode::OnChange => {
            if rule.interval_ms.is_some() || rule.max_age_ms.is_some() {
                return Err("interval_ms and max_age_ms apply only to periodic rules");
            }
            let deadband: Double = match rule.deadband {
                Some(d) => {
                    if !d.is_finite() || d.is_less_than(Double::from_bits(0)) {
                        return Err("deadband must be a finite number >= 0");
                    }
                    if kind != ValueKind::Num {
                        return Err("deadband applies only to numeric signals");
                    }
                    d
                },
                None => Double::from_bits(0),
            };
            Ok(Behaviour::OnChange { deadband })
        },
        Mode::Periodic => {
            if rule.deadband.is_some() {
                return Err("deadband applies only to on_change rules");
            }
            let interval_ms: u64 = match rule.interval_ms {
                Some(interval_ms) => interval_ms,
                None => {
                    return Err("periodic rules require interval_ms");
                },
            };
            if interval_ms < MIN_INTERVAL_MS {
                return Err("interval_ms must be >= 100");
            }
            let max_age_ms: u64 = match rule.max_age_ms {
                Some(age) => age,
                None => match interval_ms.checked_mul(3) {
                    Some(age) => age,
                    None => u64::MAX,
                },
            };
            if max_age_ms == 0 {
                return Err("max_age_ms must be > 0");
            }
            Ok(Behaviour::Periodic { interval_ms, max_age_ms })
        },
    }
}

/// Validates and compiles one rule.
pub fn compile_rule(rule: &Rule, catalog: &Catalog) -> (r: Result<CompiledRule, ValidationError>)
    ensures
        match r {
            Ok(compiled) => rule_problem(rule@, catalog@) is None && compiled_from(
                compiled@,
                rule@,
                catalog@,
            ),
            Err(e) => rule_problem(rule@, catalog@) matches Some(problem) && e.reports(problem),
        },
{
    if !is_valid_rule_id(rule.id.as_str()) {
        return Err(invalid(rule, "id must match ^[a-z0-9_]{1,64}$"));
    }
    let signal: &Signal = match catalog.by_name(rule.signal.as_str()) {
        Some(signal) => signal,
        None => {
            let mut reason: String = String::new();
            reason.append("unknown signal '");
            reason.append(rule.signal.as_str());
            reason.append("'");
            assert(reason@ =~= "unknown signal '"@ + rule@.signal + "'"@);
            return Err(invalid(rule, reason.as_str()));
        },
    };
    let behaviour: Behaviour = match rule_behaviour(rule, signal.kind()) {
        Ok(b) => b,
        Err(reason) => {
            return Err(invalid(rule, reason));
        },
    };
    let condition: Option<Condition> = match &rule.condition {
        None => None,
        Some(source) => match Condition::compile(source.as_str(), catalog) {
            Ok(condition) => Some(condition),
            Err(reason) => {
                return Err(
                    ValidationError::InvalidCondition { rule: rule.id.clone(), reason },
                );
            },
        },
    };
    let unit: Option<String> = match signal.unit() {
        Some(u) => Some(u.to_owned()),
        None => None,
    };
    Ok(CompiledRule { def: rule.clone(), condition, unit, behaviour })
}

pub open spec fn compiled_models(rules: Seq<CompiledRule>) -> Seq<CompiledModel> {
    Seq::new(rules.len(), |i: int| rules[i]@)
}

/// No two rules have the same id.
pub open spec fn distinct_ids(rules: Seq<CompiledModel>) -> bool {
    forall|i: int, j: int|
        #![trigger rules[i], rules[j]]
        0 <= i < j < rules.len() ==> rules[i].def.id != rules[j].def.id
}

/// Whether a compiled rule can be run: it logs as its definition says, a
/// deadband is a number that is not negative, and an interval is not too short.
pub open spec fn runnable(rule: CompiledModel) -> bool {
    &&& rule.behaviour == behaviour_of(rule.def)
    &&& rule.def.deadband matches Some(d) ==> d.finite()
    &&& match rule.behaviour {
        Behaviour::OnChange { deadband } => deadband.finite() && !deadband.less(
            Double { bits: 0 },
        ),
        Behaviour::Periodic { interval_ms, max_age_ms } => interval_ms >= MIN_INTERVAL_MS
            && max_age_ms > 0,
    }
}

/// Whether rules can be run together: each on its own, and no two have the same
/// id.
pub open spec fn all_runnable(rules: Seq<CompiledModel>) -> bool {
    &&& distinct_ids(rules)
    &&& forall|i: int| 0 <= i < rules.len() ==> runnable(#[trigger] rules[i])
}

/// What a rule without problems compiles to can be run.
proof fn lemma_runnable(compiled: CompiledModel, rule: RuleModel, catalog: CatalogModel)
    requires
        rule_problem(rule, catalog) is None,
        compiled_from(compiled, rule, catalog),
    ensures
        runnable(compiled),
{
    assert(Double { bits: 0 }.finite() && !Double { bits: 0 }.less(Double { bits: 0 }));
}

/// A validated, compiled rule set. Immutable once built.
#[derive(Debug)]
pub struct CompiledRuleSet {
    version: u64,
    model: String,
    rules: Vec<CompiledRule>,
}

/// The content of a [`CompiledRuleSet`].
pub struct CompiledSetModel {
    pub version: u64,
    pub model: Seq<char>,
    pub rules: Seq<CompiledModel>,
}

impl View for CompiledRuleSet {
    type V = CompiledSetModel;

    closed spec fn view(&self) -> CompiledSetModel {
        CompiledSetModel {
            version: self.version,
            model: self.model@,
            rules: compiled_models(self.rules@),
        }
    }
}

impl CompiledRuleSet {
    #[verifier::type_invariant]
    spec fn valid(self) -> bool {
        all_runnable(compiled_models(self.rules@))
    }

    /// The rule set used before any rules are loaded: logs nothing.
    pub fn empty() -> (r: CompiledRuleSet)
        ensures
            r@.version == 0,
            r@.model == ANY_MODEL@,
            r@.rules == Seq::<CompiledModel>::empty(),
    {
        let r = CompiledRuleSet { version: 0, model: ANY_MODEL.to_owned(), rules: Vec::new() };
        assert(r@.rules =~= Seq::<CompiledModel>::empty());
        r
    }

    pub fn version(&self) -> (r: u64)
        ensures
            r == self@.version,
    {
        self.version
    }

    pub fn model(&self) -> (r: &str)
        ensures
            r@ == self@.model,
    {
        self.model.as_str()
    }

    /// The rules, in order; they can be run together.
    pub fn rules(&self) -> (r: &[CompiledRule])
        ensures
            compiled_models(r@) == self@.rules,
            all_runnable(self@.rules),
    {
        proof {
            use_type_invariant(self);
        }
        self.rules.as_slice()
    }
}

/// Whether an earlier rule has the id of rule number `i`.
pub open spec fn repeated(rules: Seq<RuleModel>, i: int) -> bool {
    exists|j: int| 0 <= j < i && (#[trigger] rules[j]).id == rules[i].id
}

/// What is wrong with the id or the fields of rule number `i`, if anything.
pub open spec fn field_problem_at(
    rules: Seq<RuleModel>,
    i: int,
    catalog: CatalogModel,
) -> Option<Problem> {
    if repeated(rules, i) {
        Some(Problem::InvalidRule { rule: rules[i].id, reason: "duplicate rule id"@ })
    } else {
        field_problem(rules[i], catalog)
    }
}

pub open spec fn at_most_one(problem: Option<Problem>) -> Seq<Problem> {
    match problem {
        Some(p) => seq![p],
        None => Seq::empty(),
    }
}

/// What is wrong with rule number `i`: with its id or its fields, and with its
/// condition.
pub open spec fn problems_at(rules: Seq<RuleModel>, i: int, catalog: CatalogModel) -> Seq<
    Problem,
> {
    at_most_one(field_problem_at(rules, i, catalog)) + at_most_one(
        condition_problem(rules[i], catalog),
    )
}

/// The problems of the first `n` rules, in order.
pub open spec fn problems_before(rules: Seq<RuleModel>, n: nat, catalog: CatalogModel) -> Seq<
    Problem,
>
    decreases n,
{
    if n == 0 {
        Seq::empty()
    } else {
        problems_before(rules, (n - 1) as nat, catalog) + problems_at(rules, n - 1, catalog)
    }
}

/// Those of the first `n` rules that have no problem, in order.
pub open spec fn sound_before(rules: Seq<RuleModel>, n: nat, catalog: CatalogModel) -> Seq<
    RuleModel,
>
    decreases n,
{
    if n == 0 {
        Seq::empty()
    } else {
        let earlier = sound_before(rules, (n - 1) as nat, catalog);
        if problems_at(rules, n - 1, catalog).len() == 0 {
            earlier.push(rules[n - 1])
        } else {
            earlier
        }
    }
}

/// The problems of the rule set itself: its version, its model, its size.
pub open spec fn set_problems(
    rules: RuleSetModel,
    vehicle_model: Seq<char>,
    active_version: Option<u64>,
) -> Seq<Problem> {
    let version = match active_version {
        Some(active) => if rules.ruleset_version <= active {
            seq![Problem::NotNewer { got: rules.ruleset_version, active }]
        } else {
            Seq::empty()
        },
        None => Seq::empty(),
    };
    let model = if rules.model != ANY_MODEL@ && rules.model != vehicle_model {
        seq![Problem::ModelMismatch { got: rules.model, vehicle: vehicle_model }]
    } else {
        Seq::empty()
    };
    let size = if rules.rules.len() > MAX_RULES {
        seq![Problem::TooManyRules(rules.rules.len() as usize)]
    } else {
        Seq::empty()
    };
    version + model + size
}

/// Every problem of a rule set. The rules of an oversized set are not looked at.
pub open spec fn problems(
    rules: RuleSetModel,
    catalog: CatalogModel,
    vehicle_model: Seq<char>,
    active_version: Option<u64>,
) -> Seq<Problem> {
    set_problems(rules, vehicle_model, active_version) + if rules.rules.len() > MAX_RULES {
        Seq::empty()
    } else {
        problems_before(rules.rules, rules.rules.len(), catalog)
    }
}

/// Whether compiled rules are what rules without problems compile to.
pub open spec fn all_compiled_from(
    compiled: Seq<CompiledModel>,
    rules: Seq<RuleModel>,
    catalog: CatalogModel,
) -> bool {
    &&& compiled.len() == rules.len()
    &&& forall|i: int|
        0 <= i < rules.len() ==> compiled_from(#[trigger] compiled[i], rules[i], catalog)
}

/// What compiling the rules of a set one by one gives.
#[derive(Debug)]
pub struct RuleBatch {
    compiled: Vec<CompiledRule>,
    errors: Vec<ValidationError>,
}

impl RuleBatch {
    #[verifier::type_invariant]
    spec fn valid(self) -> bool {
        all_runnable(compiled_models(self.compiled@))
    }

    pub closed spec fn rules(self) -> Seq<CompiledModel> {
        compiled_models(self.compiled@)
    }

    pub closed spec fn reported(self) -> Seq<ValidationError> {
        self.errors@
    }
}

proof fn lemma_sound_ids(rules: Seq<RuleModel>, n: nat, catalog: CatalogModel)
    requires
        n <= rules.len(),
    ensures
        forall|k: int|
            0 <= k < sound_before(rules, n, catalog).len() ==> exists|j: int|
                0 <= j < n && (#[trigger] rules[j]) == #[trigger] sound_before(rules, n, catalog)[k],
    decreases n,
{
    if n > 0 {
        lemma_sound_ids(rules, (n - 1) as nat, catalog);
        let earlier = sound_before(rules, (n - 1) as nat, catalog);
        let sound = sound_before(rules, n, catalog);
        assert forall|k: int| 0 <= k < sound.len() implies exists|j: int|
            0 <= j < n && (#[trigger] rules[j]) == #[trigger] sound[k] by {
            if k < earlier.len() {
                assert(sound[k] == earlier[k]);
                let j = choose|j: int| 0 <= j < n - 1 && (#[trigger] rules[j]) == earlier[k];
                assert(rules[j] == sound[k]);
            } else {
                assert(rules[n - 1] == sound[k]);
            }
        }
    }
}

/// A set without problems loses no rule.
proof fn lemma_all_sound(rules: Seq<RuleModel>, n: nat, catalog: CatalogModel)
    requires
        n <= rules.len(),
        problems_before(rules, n, catalog).len() == 0,
    ensures
        sound_before(rules, n, catalog) == rules.take(n as int),
    decreases n,
{
    if n > 0 {
        lemma_all_sound(rules, (n - 1) as nat, catalog);
        assert(rules.take(n as int) =~= rules.take(n - 1).push(rules[n - 1]));
    } else {
        assert(rules.take(0) =~= Seq::<RuleModel>::empty());
    }
}

/// Whether an earlier rule has the id of rule number `i`.
fn is_repeated(rules: &Vec<Rule>, i: usize) -> (r: bool)
    requires
        i < rules@.len(),
    ensures
        r == repeated(rule_models(rules@), i as int),
{
    let ghost models = rule_models(rules@);
    let mut j: usize = 0;
    while j < i
        invariant
            j <= i < rules@.len(),
            models == rule_models(rules@),
            forall|k: int| 0 <= k < j ==> (#[trigger] models[k]).id != models[i as int].id,
        decreases i - j,
    {
        assert(models[j as int] == rules@[j as int]@);
        if same_text(rules[j].id.as_str(), rules[i].id.as_str()) {
            return true;
        }
        j = j + 1;
    }
    false
}

/// What is wrong with the condition of a rule, if anything.
fn condition_error(rule: &Rule, catalog: &Catalog) -> (r: Option<ValidationError>)
    ensures
        r is Some <==> condition_problem(rule@, catalog@) is Some,
        r matches Some(e) ==> e.reports(condition_problem(rule@, catalog@)->0),
{
    match &rule.condition {
        None => None,
        Some(source) => match Condition::compile(source.as_str(), catalog) {
            Ok(_) => None,
            Err(reason) => Some(
                ValidationError::InvalidCondition { rule: rule.id.clone(), reason },
            ),
        },
    }
}

/// Validates and compiles the rules of a set, one by one, and reports what is
/// wrong with each: with its id or its fields, and with its condition.
/// Conditions are parsed here, so this is to run on a thread with a large stack.
pub fn compile_rules(rules: &RuleSet, catalog: &Catalog) -> (r: RuleBatch)
    ensures
        all_reported(
            r.reported(),
            problems_before(rules@.rules, rules@.rules.len(), catalog@),
        ),
        all_compiled_from(
            r.rules(),
            sound_before(rules@.rules, rules@.rules.len(), catalog@),
            catalog@,
        ),
{
    let ghost models = rules@.rules;
    let mut errors: Vec<ValidationError> = Vec::new();
    let mut compiled: Vec<CompiledRule> = Vec::new();
    let mut i: usize = 0;
    while i < rules.rules.len()
        invariant
            i <= rules.rules@.len(),
            models == rule_models(rules.rules@),
            all_reported(errors@, problems_before(models, i as nat, catalog@)),
            all_compiled_from(
                compiled_models(compiled@),
                sound_before(models, i as nat, catalog@),
                catalog@,
            ),
            all_runnable(compiled_models(compiled@)),
        decreases rules.rules@.len() - i,
    {
        let rule: &Rule = &rules.rules[i];
        assert(models[i as int] == rule@);
        // Whether the rule is rejected before its condition has been read.
        let unread: bool = if is_repeated(&rules.rules, i) {
            errors.push(invalid(rule, "duplicate rule id"));
            true
        } else {
            match compile_rule(rule, catalog) {
                Ok(c) => {
                    let ghost before = compiled_models(compiled@);
                    compiled.push(c);
                    proof {
                        let after = compiled_models(compiled@);
                        assert(after =~= before.push(c@));
                        lemma_runnable(c@, rule@, catalog@);
                        let sound = sound_before(models, i as nat, catalog@);
                        lemma_sound_ids(models, i as nat, catalog@);
                        assert forall|k: int, l: int|
                            #![trigger after[k], after[l]]
                            0 <= k < l < after.len() implies after[k].def.id != after[l].def.id by {
                            if l < before.len() {
                                assert(after[k] == before[k] && after[l] == before[l]);
                            } else {
                                assert(after[k] == before[k]);
                                assert(compiled_from(before[k], sound[k], catalog@));
                                let j = choose|j: int|
                                    0 <= j < i && (#[trigger] models[j]) == sound[k];
                                assert(models[j].id != models[i as int].id);
                            }
                        }
                    }
                    false
                },
                Err(e) => {
                    let unread: bool = matches!(e, ValidationError::InvalidRule { .. });
                    errors.push(e);
                    unread
                },
            }
        };
        if unread {
            if let Some(e) = condition_error(rule, catalog) {
                errors.push(e);
            }
        }
        i = i + 1;
    }
    RuleBatch { compiled, errors }
}

/// Checks the rule set itself: its version, its model, its size.
pub fn check_set(rules: &RuleSet, vehicle_model: &str, active_version: Option<u64>) -> (r: Vec<
    ValidationError,
>)
    ensures
        all_reported(r@, set_problems(rules@, vehicle_model@, active_version)),
{
    let mut errors: Vec<ValidationError> = Vec::new();
    if let Some(active) = active_version {
        if rules.ruleset_version <= active {
            errors.push(ValidationError::NotNewer { got: rules.ruleset_version, active });
        }
    }
    if !same_text(rules.model.as_str(), ANY_MODEL) && !same_text(
        rules.model.as_str(),
        vehicle_model,
    ) {
        errors.push(
            ValidationError::ModelMismatch {
                got: rules.model.clone(),
                vehicle: vehicle_model.to_owned(),
            },
        );
    }
    if rules.rules.len() > MAX_RULES {
        errors.push(ValidationError::TooManyRules(rules.rules.len()));
    }
    errors
}

/// Puts a rule set together from what compiling its rules gave, or from why
/// that did not come to an end.
pub fn finish_ruleset(
    rules: &RuleSet,
    vehicle_model: &str,
    active_version: Option<u64>,
    outcome: Result<RuleBatch, String>,
) -> (r: Result<CompiledRuleSet, ValidationErrors>)
    ensures
        ({
            let first = set_problems(rules@, vehicle_model@, active_version);
            match outcome {
                Ok(batch) => match r {
                    Ok(set) => {
                        &&& first.len() == 0
                        &&& batch.reported().len() == 0
                        &&& set@.version == rules@.ruleset_version
                        &&& set@.model == rules@.model
                        &&& set@.rules == batch.rules()
                    },
                    Err(errors) => {
                        &&& first.len() + batch.reported().len() > 0
                        &&& errors.0@.len() == first.len() + batch.reported().len()
                        &&& all_reported(errors.0@.take(first.len() as int), first)
                        &&& errors.0@.skip(first.len() as int) == batch.reported()
                    },
                },
                Err(why) => r matches Err(errors) && all_reported(
                    errors.0@,
                    first.push(Problem::Internal(why@)),
                ),
            }
        }),
{
    let mut errors: Vec<ValidationError> = check_set(rules, vehicle_model, active_version);
    let ghost first = set_problems(rules@, vehicle_model@, active_version);
    match outcome {
        Ok(batch) => {
            proof {
                use_type_invariant(&batch);
            }
            let ghost reported = batch.reported();
            let RuleBatch { compiled, errors: mut rule_errors } = batch;
            let ghost set_errors = errors@;
            errors.append(&mut rule_errors);
            if errors.len() == 0 {
                Ok(
                    CompiledRuleSet {
                        version: rules.ruleset_version,
                        model: rules.model.clone(),
                        rules: compiled,
                    },
                )
            } else {
                assert(errors@.take(first.len() as int) =~= set_errors);
                assert(errors@.skip(first.len() as int) =~= reported);
                Err(ValidationErrors(errors))
            }
        },
        Err(why) => {
            errors.push(ValidationError::Internal(why));
            Err(ValidationErrors(errors))
        },
    }
}

/// Validates and compiles `rules` for a vehicle.
///
/// `active_version` is the currently active rule set version, used for
/// rollback protection. Pass `None` on the first load at boot (from cache).
/// Conditions are parsed here, so this is to run on a thread with a large
/// stack.
pub fn compile_ruleset(
    rules: &RuleSet,
    catalog: &Catalog,
    vehicle_model: &str,
    active_version: Option<u64>,
) -> (r: Result<CompiledRuleSet, ValidationErrors>)
    ensures
        match r {
            Ok(set) => {
                &&& problems(rules@, catalog@, vehicle_model@, active_version).len() == 0
                &&& set@.version == rules@.ruleset_version
                &&& set@.model == rules@.model
                &&& all_compiled_from(set@.rules, rules@.rules, catalog@)
            },
            Err(errors) => {
                &&& errors.0@.len() > 0
                &&& all_reported(
                    errors.0@,
                    problems(rules@, catalog@, vehicle_model@, active_version),
                )
            },
        },
{
    let ghost first = set_problems(rules@, vehicle_model@, active_version);
    if rules.rules.len() > MAX_RULES {
        // Don't spend CPU on the individual rules of an oversized set.
        let errors: Vec<ValidationError> = check_set(rules, vehicle_model, active_version);
        assert(problems(rules@, catalog@, vehicle_model@, active_version) =~= first);
        return Err(ValidationErrors(errors));
    }
    let batch: RuleBatch = compile_rules(rules, catalog);
    let ghost rest = problems_before(rules@.rules, rules@.rules.len(), catalog@);
    let ghost all = problems(rules@, catalog@, vehicle_model@, active_version);
    let r = finish_ruleset(rules, vehicle_model, active_version, Ok(batch));
    proof {
        match &r {
            Ok(_) => {
                lemma_all_sound(rules@.rules, rules@.rules.len(), catalog@);
                assert(rules@.rules.take(rules@.rules.len() as int) =~= rules@.rules);
            },
            Err(errors) => {
                let e = errors.0@;
                let n = first.len() as int;
                assert forall|i: int| 0 <= i < e.len() implies (#[trigger] e[i]).reports(all[i]) by {
                    if i < n {
                        assert(e.take(n)[i] == e[i]);
                    } else {
                        assert(e.skip(n)[i - n] == e[i]);
                    }
                }
            },
        }
    }
    r
}

/// A set without problems is newer than the active one, is meant for the
/// vehicle, and is not too large; its rules are sound, and no two have the same
/// id.
pub proof fn law_sound_set(
    rules: RuleSetModel,
    catalog: CatalogModel,
    vehicle_model: Seq<char>,
    active_version: Option<u64>,
)
    requires
        problems(rules, catalog, vehicle_model, active_version).len() == 0,
    ensures
        active_version matches Some(active) ==> rules.ruleset_version > active,
        rules.model == ANY_MODEL@ || rules.model == vehicle_model,
        rules.rules.len() <= MAX_RULES,
        forall|i: int|
            0 <= i < rules.rules.len() ==> rule_problem(#[trigger] rules.rules[i], catalog) is None,
        forall|i: int, j: int|
            #![trigger rules.rules[i], rules.rules[j]]
            0 <= i < j < rules.rules.len() ==> rules.rules[i].id != rules.rules[j].id,
{
    let set = set_problems(rules, vehicle_model, active_version);
    assert(set.len() == 0);
    lemma_each_sound(rules.rules, rules.rules.len(), catalog);
    assert forall|i: int, j: int|
        #![trigger rules.rules[i], rules.rules[j]]
        0 <= i < j < rules.rules.len() implies rules.rules[i].id != rules.rules[j].id by {
        assert(problems_at(rules.rules, j, catalog).len() == 0);
        assert(!repeated(rules.rules, j));
    }
}

proof fn lemma_each_sound(rules: Seq<RuleModel>, n: nat, catalog: CatalogModel)
    requires
        n <= rules.len(),
        problems_before(rules, n, catalog).len() == 0,
    ensures
        forall|i: int| 0 <= i < n ==> #[trigger] problems_at(rules, i, catalog).len() == 0,
        forall|i: int| 0 <= i < n ==> rule_problem(#[trigger] rules[i], catalog) is None,
    decreases n,
{
    if n > 0 {
        assert(problems_at(rules, n - 1, catalog).len() == 0);
        lemma_each_sound(rules, (n - 1) as nat, catalog);
    }
}

/// Every failure is reported at once: those of the set itself, and, unless it is
/// too large, those of each rule, of its id or its fields and of its condition.
pub proof fn law_every_failure_is_reported(
    rules: RuleSetModel,
    catalog: CatalogModel,
    vehicle_model: Seq<char>,
    active_version: Option<u64>,
    i: int,
    problem: Problem,
)
    requires
        ({
            ||| set_problems(rules, vehicle_model, active_version).contains(problem)
            ||| {
                &&& 0 <= i < rules.rules.len() <= MAX_RULES
                &&& {
                    ||| field_problem_at(rules.rules, i, catalog) == Some(problem)
                    ||| condition_problem(rules.rules[i], catalog) == Some(problem)
                }
            }
        }),
    ensures
        problems(rules, catalog, vehicle_model, active_version).contains(problem),
{
    let set = set_problems(rules, vehicle_model, active_version);
    let all = problems(rules, catalog, vehicle_model, active_version);
    if set.contains(problem) {
        let k = choose|k: int| 0 <= k < set.len() && set[k] == problem;
        assert(all[k] == problem);
    } else {
        let here = problems_at(rules.rules, i, catalog);
        let first = at_most_one(field_problem_at(rules.rules, i, catalog));
        if first.len() > 0 && first[0] == problem {
            assert(here[0] == problem);
        } else {
            assert(here[first.len() as int] == problem);
        }
        let n = rules.rules.len();
        lemma_problems_kept(rules.rules, i, n, catalog, problem);
        let rest = problems_before(rules.rules, n, catalog);
        let k = choose|k: int| 0 <= k < rest.len() && rest[k] == problem;
        assert(all[set.len() + k] == problem);
    }
}

proof fn lemma_problems_kept(
    rules: Seq<RuleModel>,
    i: int,
    n: nat,
    catalog: CatalogModel,
    problem: Problem,
)
    requires
        0 <= i < n <= rules.len(),
        problems_at(rules, i, catalog).contains(problem),
    ensures
        problems_before(rules, n, catalog).contains(problem),
    decreases n,
{
    let earlier = problems_before(rules, (n - 1) as nat, catalog);
    let all = problems_before(rules, n, catalog);
    let here = problems_at(rules, n - 1, catalog);
    if i == n - 1 {
        let k = choose|k: int| 0 <= k < here.len() && here[k] == problem;
        assert(all[earlier.len() + k] == problem);
    } else {
        lemma_problems_kept(rules, i, (n - 1) as nat, catalog, problem);
        let k = choose|k: int| 0 <= k < earlier.len() && earlier[k] == problem;
        assert(all[k] == problem);
    }
}

} // verus!
