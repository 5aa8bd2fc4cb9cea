//! What rules, rule sets and conditions mean, in terms of their fields.

use crate::catalog::{CatalogModel, DefModel, SignalType};
use crate::compile::{
    all_compiled_from, condition_problem, field_problem, field_problem_at, problems, problems_at,
    problems_before, repeated, rule_problem, set_problems, sound_before, words_from, Behaviour,
    CompiledModel, Problem, ValidationError,
};
use crate::condition::{
    accepted, args_fault, condition_fault, mentions, tree_fault, ConditionModel, EvalFault,
};
use crate::decimal::number_text;
use crate::double::Double;
use crate::expression::{
    executed, is_allowed, parsed, ArgumentModel, OutcomeModel, Tree,
    ALLOWED_OPERATORS,
};
use crate::ruleset::{Mode, RuleModel, RuleSetModel};
use crate::text::{decimal, is_space, is_word_char};
use crate::value::SignalValue;
use vstd::prelude::*;

verus! {

/// A condition is run on the values that its signals have, each bound to itself:
/// a bool to that bool, a label to that label, a number to the text of that
/// number. What comes of the run is what the condition says.
pub proof fn law_condition_is_run_on_its_values(
    condition: ConditionModel,
    values: Map<Seq<char>, SignalValue>,
    vars: Map<Seq<char>, ArgumentModel>,
)
    requires
        forall|name: Seq<char>| #[trigger]
            vars.contains_key(name) <==> condition.signals.contains(name),
        forall|name: Seq<char>| #[trigger]
            condition.signals.contains(name) ==> values.contains_key(name),
        forall|name: Seq<char>| #[trigger]
            condition.signals.contains(name) ==> match values[name] {
                SignalValue::Bool(b) => vars[name] == ArgumentModel::Bool(b),
                SignalValue::Num(d) => vars[name] == ArgumentModel::Number(number_text(d)),
                SignalValue::Enum(label) => vars[name] == ArgumentModel::Text(label@),
            },
    ensures
        match executed(condition.source, vars) {
            OutcomeModel::Bool(b) => condition.value(values) == Ok::<bool, EvalFault>(b),
            OutcomeModel::Other(t) => condition.value(values) == Err::<bool, EvalFault>(
                EvalFault::NotBool(t),
            ),
            OutcomeModel::Failed(t) => condition.value(values) == Err::<bool, EvalFault>(
                EvalFault::Execution(t),
            ),
        },
{
    assert(forall|i: int|
        0 <= i < condition.signals.len() ==> condition.signals.contains(
            #[trigger] condition.signals[i],
        ));
    let bound = crate::condition::arguments(condition.signals, values);
    assert forall|name: Seq<char>| condition.signals.contains(name) implies #[trigger] bound[name]
        == vars[name] by {}
    assert(bound =~= vars);
}

/// A condition is false, and no error, where one of its signals has no value.
pub proof fn law_missing_signal_is_false(
    condition: ConditionModel,
    values: Map<Seq<char>, SignalValue>,
    name: Seq<char>,
)
    requires
        condition.signals.contains(name),
        !values.contains_key(name),
    ensures
        condition.value(values) == Ok::<bool, EvalFault>(false),
{
    let i = choose|i: int| 0 <= i < condition.signals.len() && condition.signals[i] == name;
    assert(!values.contains_key(condition.signals[i]));
}

/// How many levels a tree has.
pub open spec fn levels(t: Tree) -> nat
    decreases t, 0nat,
{
    match t {
        Tree::Call { on_target, func, args } => 1 + deepest(args, args.len()),
        _ => 1,
    }
}

/// The levels of the deepest of the first `n` trees.
pub open spec fn deepest(args: Seq<Tree>, n: nat) -> nat
    decreases args, n,
{
    if n == 0 || n > args.len() {
        0
    } else {
        let rest = deepest(args, (n - 1) as nat);
        let last = levels(args[n - 1]);
        if last > rest {
            last
        } else {
            rest
        }
    }
}

/// Whether a tree is made of names of signals, of numbers, texts and bools, and
/// of the operators of the language, and of nothing else.
pub open spec fn plain(t: Tree, catalog: CatalogModel) -> bool
    decreases t,
{
    match t {
        Tree::Ident(name) => exists|i: int|
            0 <= i < catalog.signals.len() && (#[trigger] catalog.signals[i]).name == name,
        Tree::Literal(kind) => kind is Boolean || kind is Double || kind is Int || kind is UInt
            || kind is Text,
        Tree::Call { on_target, func, args } => {
            &&& !on_target
            &&& func == "_&&_"@ || func == "_||_"@ || func == "!_"@ || func == "-_"@ || func
                == "_==_"@ || func == "_!=_"@ || func == "_<_"@ || func == "_<=_"@ || func
                == "_>_"@ || func == "_>=_"@ || func == "_+_"@ || func == "_-_"@ || func == "_*_"@
                || func == "_/_"@ || func == "_%_"@ || func == "_?_:_"@
            &&& forall|i: int| 0 <= i < args.len() ==> plain(#[trigger] args[i], catalog)
        },
        _ => false,
    }
}

proof fn lemma_operators(func: Seq<char>)
    ensures
        is_allowed(func) <==> (func == "_&&_"@ || func == "_||_"@ || func == "!_"@ || func
            == "-_"@ || func == "_==_"@ || func == "_!=_"@ || func == "_<_"@ || func == "_<=_"@
            || func == "_>_"@ || func == "_>=_"@ || func == "_+_"@ || func == "_-_"@ || func
            == "_*_"@ || func == "_/_"@ || func == "_%_"@ || func == "_?_:_"@),
{
    let ops = ALLOWED_OPERATORS;
    assert(ops[0]@ == "_&&_"@ && ops[1]@ == "_||_"@ && ops[2]@ == "!_"@ && ops[3]@ == "-_"@);
    assert(ops[4]@ == "_==_"@ && ops[5]@ == "_!=_"@ && ops[6]@ == "_<_"@ && ops[7]@ == "_<=_"@);
    assert(ops[8]@ == "_>_"@ && ops[9]@ == "_>=_"@ && ops[10]@ == "_+_"@ && ops[11]@ == "_-_"@);
    assert(ops[12]@ == "_*_"@ && ops[13]@ == "_/_"@ && ops[14]@ == "_%_"@ && ops[15]@
        == "_?_:_"@);
}

proof fn lemma_plain(t: Tree, depth: nat, catalog: CatalogModel)
    requires
        depth >= 1,
    ensures
        tree_fault(t, depth, catalog) is None <==> plain(t, catalog) && depth + levels(t) <= 25,
        levels(t) >= 1,
    decreases t, 0nat,
{
    if let Tree::Call { on_target, func, args } = t {
        lemma_operators(func);
        lemma_plain_args(args, args.len(), depth + 1, catalog);
    }
}

proof fn lemma_plain_args(args: Seq<Tree>, n: nat, depth: nat, catalog: CatalogModel)
    requires
        n <= args.len(),
        depth >= 1,
    ensures
        args_fault(args, n, depth, catalog) is None <==> (forall|i: int|
            0 <= i < n ==> plain(#[trigger] args[i], catalog)) && (n > 0 ==> depth + deepest(
            args,
            n,
        ) <= 25),
    decreases args, n,
{
    if n > 0 {
        lemma_plain(args[n - 1], depth, catalog);
        lemma_plain_args(args, (n - 1) as nat, depth, catalog);
    }
}

/// A condition is accepted exactly where it has at most 512 characters, not all
/// of them white space, and parses to a tree of at most 24 levels that is made
/// of names of signals, scalar literals and operators alone.
pub proof fn law_accepted_conditions(source: Seq<char>, catalog: CatalogModel)
    ensures
        condition_fault(source, catalog) is None <==> {
            &&& source.len() <= 512
            &&& exists|i: int| 0 <= i < source.len() && !is_space(#[trigger] source[i])
            &&& parsed(source) matches Ok(t) && plain(t, catalog) && levels(t) <= 24
        },
{
    if let Ok(t) = parsed(source) {
        lemma_plain(t, 1, catalog);
    }
}

/// What a rejected condition is rejected for: its length before its emptiness,
/// that before what the parser says, and what is wrong with the tree last.
pub proof fn law_rejected_conditions(source: Seq<char>, catalog: CatalogModel)
    ensures
        source.len() > 512 ==> condition_fault(source, catalog) == Some(
            "condition is "@ + decimal(source.len() as int) + " characters, limit is 512"@,
        ),
        source.len() <= 512 && (forall|i: int|
            0 <= i < source.len() ==> is_space(#[trigger] source[i])) ==> condition_fault(
            source,
            catalog,
        ) == Some("condition is empty"@),
        source.len() <= 512 && (exists|i: int|
            0 <= i < source.len() && !is_space(#[trigger] source[i])) ==> (parsed(
            source,
        ) matches Err(words) ==> condition_fault(source, catalog) == Some(
            "syntax error: "@ + words,
        )),
{
}

/// What is said of a node that a condition may not hold, at a depth that it may
/// have.
pub proof fn law_rejected_nodes(t: Tree, depth: nat, catalog: CatalogModel)
    ensures
        depth > 24 ==> tree_fault(t, depth, catalog) == Some(
            "condition is nested too deeply (limit 24)"@,
        ),
        depth <= 24 ==> match t {
            Tree::Ident(name) => (forall|i: int|
                0 <= i < catalog.signals.len() ==> (#[trigger] catalog.signals[i]).name != name)
                ==> tree_fault(t, depth, catalog) == Some("unknown signal '"@ + name + "'"@),
            Tree::Literal(kind) => kind is Bytes || kind is Null ==> tree_fault(t, depth, catalog)
                == Some("bytes and null literals are not allowed"@),
            Tree::Call { on_target, func, args } => on_target || !plain(
                Tree::Call { on_target: false, func, args: Seq::empty() },
                catalog,
            ) ==> tree_fault(t, depth, catalog) == Some(
                "'"@ + func
                    + "' is not allowed; only comparison, logical and arithmetic operators"@,
            ),
            Tree::Select => tree_fault(t, depth, catalog) == Some("field access is not allowed"@),
            Tree::Comprehension => tree_fault(t, depth, catalog) == Some("macros are not allowed"@),
            Tree::ListLiteral | Tree::MapLiteral | Tree::StructLiteral => tree_fault(
                t,
                depth,
                catalog,
            ) == Some("list, map and struct literals are not allowed"@),
            Tree::Unspecified => tree_fault(t, depth, catalog) == Some("unsupported expression"@),
        },
{
    if let Tree::Call { on_target, func, args } = t {
        lemma_operators(func);
    }
}

/// The signals of an accepted condition are the names that stand in its tree, in
/// ascending order.
pub proof fn law_signals_of_a_condition(
    condition: ConditionModel,
    catalog: CatalogModel,
    t: Tree,
    name: Seq<char>,
)
    requires
        accepted(condition, catalog),
        parsed(condition.source) matches Ok(tree) && tree == t,
    ensures
        t matches Tree::Ident(n) ==> (condition.signals.contains(name) <==> n == name),
        t matches Tree::Literal(_) ==> !condition.signals.contains(name),
        t matches Tree::Call { on_target, func, args } ==> (condition.signals.contains(name)
            <==> exists|i: int| 0 <= i < args.len() && mentions(#[trigger] args[i], name)),
        condition.signals.contains(name) ==> exists|i: int|
            0 <= i < catalog.signals.len() && (#[trigger] catalog.signals[i]).name == name,
{
    crate::condition::law_sound_tree_is_harmless(t, 1, catalog);
}

/// A name stands in a tree where it is the tree, or stands in an argument.
pub proof fn law_mentions(t: Tree, name: Seq<char>)
    ensures
        mentions(t, name) <==> match t {
            Tree::Ident(n) => n == name,
            Tree::Call { on_target, func, args } => exists|i: int|
                0 <= i < args.len() && mentions(#[trigger] args[i], name),
            _ => false,
        },
{
}

/// Two definitions are the same exactly where each of their fields is; deadbands
/// are where both are missing, or both are numbers at one place of the number
/// line.
pub proof fn law_same_definitions(a: RuleModel, b: RuleModel)
    ensures
        a.same(b) <==> {
            &&& a.id == b.id
            &&& a.signal == b.signal
            &&& a.mode == b.mode
            &&& a.interval_ms == b.interval_ms
            &&& a.max_age_ms == b.max_age_ms
            &&& a.condition == b.condition
            &&& a.deadband is None <==> b.deadband is None
            &&& a.deadband matches Some(x) ==> b.deadband matches Some(y) && !x.nan() && !y.nan()
                && x.order_key() == y.order_key()
        },
{
}

/// Whether a text is an id of a rule: one to 64 lower-case letters, digits and
/// underscores.
pub open spec fn is_rule_id(id: Seq<char>) -> bool {
    &&& 1 <= id.len() <= 64
    &&& forall|i: int|
        0 <= i < id.len() ==> {
            let c = #[trigger] id[i];
            ('a' <= c && c <= 'z') || ('0' <= c && c <= '9') || c == '_'
        }
}

/// Whether a signal decodes to a number.
pub open spec fn is_numeric(def: DefModel) -> bool {
    def.ty != SignalType::Bool && def.enum_map is None
}

/// A rule's id and fields are in order exactly where the id is well-formed, the
/// signal is one of the catalog's, and the fields are those of its mode: an
/// `on_change` rule has neither interval nor age limit, and a deadband only on a
/// numeric signal, finite and not below zero; a `periodic` rule has no deadband,
/// an interval of 100 ms or more, and no age limit of zero.
pub proof fn law_rule_fields(rule: RuleModel, catalog: CatalogModel)
    requires
        catalog.fault() is None,
    ensures
        field_problem(rule, catalog) is None <==> {
            &&& is_rule_id(rule.id)
            &&& exists|k: int|
                0 <= k < catalog.signals.len() && (#[trigger] catalog.signals[k]).name
                    == rule.signal && match rule.mode {
                    Mode::OnChange => {
                        &&& rule.interval_ms is None
                        &&& rule.max_age_ms is None
                        &&& rule.deadband matches Some(d) ==> d.finite() && d.order_key() >= 0
                            && is_numeric(catalog.signals[k])
                    },
                    Mode::Periodic => {
                        &&& rule.deadband is None
                        &&& rule.interval_ms matches Some(interval) && interval >= 100
                        &&& rule.max_age_ms matches Some(age) ==> age > 0
                    },
                }
        },
        field_problem(rule, catalog) matches Some(problem) ==> (problem matches Problem::InvalidRule {
            rule: id,
            reason,
        } && id == rule.id),
{
    assert(forall|c: char| #[trigger]
        is_word_char(c) <==> ('a' <= c && c <= 'z') || ('0' <= c && c <= '9') || c == '_');
    if is_rule_id(rule.id) {
        assert forall|i: int| 0 <= i < rule.id.len() implies is_word_char(
            #[trigger] rule.id[i],
        ) by {}
    }
    assert(Double { bits: 0 }.order_key() == 0);
    if catalog.has_name(rule.signal) {
        let k = choose|k: int|
            0 <= k < catalog.signals.len() && (#[trigger] catalog.signals[k]).name == rule.signal;
        crate::catalog::law_each_signal_is_found(catalog, k);
        assert(catalog.find_name(rule.signal) == Some(catalog.signals[k]));
        assert forall|j: int|
            0 <= j < catalog.signals.len() && (#[trigger] catalog.signals[j]).name
                == rule.signal implies catalog.signals[j] == catalog.signals[k] by {
            crate::catalog::law_each_signal_is_found(catalog, j);
        }
    }
}

/// What is said of a rule whose id, signal or fields are not in order, the first
/// fault first.
pub proof fn law_rejected_rules(rule: RuleModel, catalog: CatalogModel)
    requires
        catalog.fault() is None,
    ensures
        ({
            let said = |reason: Seq<char>|
                field_problem(rule, catalog) == Some(
                    Problem::InvalidRule { rule: rule.id, reason },
                );
            if !is_rule_id(rule.id) {
                said("id must match ^[a-z0-9_]{1,64}$"@)
            } else if forall|k: int|
                0 <= k < catalog.signals.len() ==> (#[trigger] catalog.signals[k]).name
                    != rule.signal {
                said("unknown signal '"@ + rule.signal + "'"@)
            } else {
                match rule.mode {
                    Mode::OnChange => {
                        &&& rule.interval_ms is Some || rule.max_age_ms is Some ==> said(
                            "interval_ms and max_age_ms apply only to periodic rules"@,
                        )
                        &&& rule.interval_ms is None && rule.max_age_ms is None
                            ==> (rule.deadband matches Some(d) ==> {
                            &&& !(d.finite() && d.order_key() >= 0) ==> said(
                                "deadband must be a finite number >= 0"@,
                            )
                            &&& d.finite() && d.order_key() >= 0 && field_problem(
                                rule,
                                catalog,
                            ) is Some ==> said("deadband applies only to numeric signals"@)
                        })
                    },
                    Mode::Periodic => {
                        &&& rule.deadband is Some ==> said(
                            "deadband applies only to on_change rules"@,
                        )
                        &&& rule.deadband is None && rule.interval_ms is None ==> said(
                            "periodic rules require interval_ms"@,
                        )
                        &&& rule.deadband is None ==> (rule.interval_ms matches Some(interval) ==> {
                            &&& interval < 100 ==> said("interval_ms must be >= 100"@)
                            &&& interval >= 100 && rule.max_age_ms == Some(0u64) ==> said(
                                "max_age_ms must be > 0"@,
                            )
                        })
                    },
                }
            }
        }),
{
    assert(forall|c: char| #[trigger]
        is_word_char(c) <==> ('a' <= c && c <= 'z') || ('0' <= c && c <= '9') || c == '_');
    if is_rule_id(rule.id) {
        assert forall|i: int| 0 <= i < rule.id.len() implies is_word_char(
            #[trigger] rule.id[i],
        ) by {}
    }
    assert(Double { bits: 0 }.order_key() == 0);
}

/// A condition is looked at whatever else is wrong with its rule.
pub proof fn law_condition_problems(rule: RuleModel, catalog: CatalogModel)
    ensures
        rule.condition is None ==> condition_problem(rule, catalog) is None,
        rule.condition matches Some(source) ==> match condition_fault(source, catalog) {
            Some(why) => condition_problem(rule, catalog) == Some(
                Problem::InvalidCondition { rule: rule.id, reason: why },
            ),
            None => condition_problem(rule, catalog) is None,
        },
{
}

/// A rule set is accepted exactly where it is newer than the active one, meant
/// for the vehicle or for any, has at most 256 rules, no two with one id, and
/// each of them is in order, its condition included.
pub proof fn law_accepted_sets(
    rules: RuleSetModel,
    catalog: CatalogModel,
    vehicle_model: Seq<char>,
    active_version: Option<u64>,
)
    ensures
        problems(rules, catalog, vehicle_model, active_version).len() == 0 <==> {
            &&& active_version matches Some(active) ==> active < rules.ruleset_version
            &&& rules.model == "*"@ || rules.model == vehicle_model
            &&& rules.rules.len() <= 256
            &&& forall|i: int, j: int|
                #![trigger rules.rules[i], rules.rules[j]]
                0 <= i < j < rules.rules.len() ==> rules.rules[i].id != rules.rules[j].id
            &&& forall|i: int|
                0 <= i < rules.rules.len() ==> field_problem(
                    #[trigger] rules.rules[i],
                    catalog,
                ) is None && condition_problem(rules.rules[i], catalog) is None
        },
{
    let all = problems(rules, catalog, vehicle_model, active_version);
    let n = rules.rules.len();
    if all.len() == 0 {
        crate::compile::law_sound_set(rules, catalog, vehicle_model, active_version);
        lemma_each_in_order(rules.rules, n, catalog);
    }
    if rules.rules.len() <= 256 && (forall|i: int, j: int|
        #![trigger rules.rules[i], rules.rules[j]]
        0 <= i < j < n ==> rules.rules[i].id != rules.rules[j].id) && (forall|i: int|
        0 <= i < n ==> field_problem(#[trigger] rules.rules[i], catalog) is None
            && condition_problem(rules.rules[i], catalog) is None) {
        lemma_no_problems(rules.rules, n, catalog);
    }
}

proof fn lemma_each_in_order(rules: Seq<RuleModel>, n: nat, catalog: CatalogModel)
    requires
        n <= rules.len(),
        problems_before(rules, n, catalog).len() == 0,
    ensures
        forall|i: int|
            0 <= i < n ==> field_problem(#[trigger] rules[i], catalog) is None
                && condition_problem(rules[i], catalog) is None,
    decreases n,
{
    if n > 0 {
        lemma_each_in_order(rules, (n - 1) as nat, catalog);
        assert(problems_at(rules, n - 1, catalog).len() == 0);
    }
}

proof fn lemma_no_problems(rules: Seq<RuleModel>, n: nat, catalog: CatalogModel)
    requires
        n <= rules.len(),
        forall|i: int, j: int|
            #![trigger rules[i], rules[j]]
            0 <= i < j < rules.len() ==> rules[i].id != rules[j].id,
        forall|i: int|
            0 <= i < rules.len() ==> field_problem(#[trigger] rules[i], catalog) is None
                && condition_problem(rules[i], catalog) is None,
    ensures
        problems_before(rules, n, catalog).len() == 0,
    decreases n,
{
    if n > 0 {
        lemma_no_problems(rules, (n - 1) as nat, catalog);
        assert(!repeated(rules, n - 1));
        assert(problems_at(rules, n - 1, catalog).len() == 0);
    }
}

/// The problems of a set itself, and which: an old version, another model, too
/// many rules, in this order.
pub proof fn law_set_problems(
    rules: RuleSetModel,
    vehicle_model: Seq<char>,
    active_version: Option<u64>,
)
    ensures
        ({
            let old = active_version matches Some(active) && rules.ruleset_version <= active;
            let foreign = rules.model != "*"@ && rules.model != vehicle_model;
            let large = rules.rules.len() > 256;
            let count = |b: bool|
                if b {
                    1int
                } else {
                    0int
                };
            let found = set_problems(rules, vehicle_model, active_version);
            &&& found.len() == count(old) + count(foreign) + count(large)
            &&& old ==> found[0] == (Problem::NotNewer {
                got: rules.ruleset_version,
                active: active_version->0,
            })
            &&& foreign ==> found[count(old)] == (Problem::ModelMismatch {
                got: rules.model,
                vehicle: vehicle_model,
            })
            &&& large ==> found[count(old) + count(foreign)] == Problem::TooManyRules(
                rules.rules.len() as usize,
            )
        }),
{
}

/// A rule that repeats an id is reported for it; another for its own fields.
pub proof fn law_duplicate_ids(rules: Seq<RuleModel>, i: int, catalog: CatalogModel)
    requires
        0 <= i < rules.len(),
    ensures
        (exists|j: int| 0 <= j < i && (#[trigger] rules[j]).id == rules[i].id)
            ==> field_problem_at(rules, i, catalog) == Some(
            Problem::InvalidRule { rule: rules[i].id, reason: "duplicate rule id"@ },
        ),
        (forall|j: int| 0 <= j < i ==> (#[trigger] rules[j]).id != rules[i].id)
            ==> field_problem_at(rules, i, catalog) == field_problem(rules[i], catalog),
        rule_problem(rules[i], catalog) is None <==> field_problem(rules[i], catalog) is None
            && condition_problem(rules[i], catalog) is None,
{
}

/// An error reports a problem with the numbers and texts of that problem.
pub proof fn law_errors_report_problems(error: ValidationError, problem: Problem)
    requires
        error.reports(problem),
    ensures
        match problem {
            Problem::NotNewer { got, active } => error == (ValidationError::NotNewer {
                got,
                active,
            }),
            Problem::ModelMismatch { got, vehicle } => error matches ValidationError::ModelMismatch {
                got: g,
                vehicle: v,
            } && g@ == got && v@ == vehicle,
            Problem::TooManyRules(n) => error == ValidationError::TooManyRules(n),
            Problem::InvalidRule { rule, reason } => error matches ValidationError::InvalidRule {
                rule: r,
                reason: why,
            } && r@ == rule && why@ == reason,
            Problem::InvalidCondition { rule, reason } => error matches ValidationError::InvalidCondition {
                rule: r,
                reason: why,
            } && r@ == rule && why@ == reason,
            Problem::Internal(t) => error matches ValidationError::Internal(u) && u@ == t,
        },
{
}

/// Labels and words of errors.
pub proof fn law_errors_in_words(error: ValidationError)
    ensures
        match error {
            ValidationError::NotNewer { got, active } => error.label() == "not_newer"@
                && error.words() == "ruleset_version "@ + decimal(got as int)
                + " is not newer than the active version "@ + decimal(active as int),
            ValidationError::ModelMismatch { got, vehicle } => error.label() == "model_mismatch"@
                && error.words() == "rule set model '"@ + got@
                + "' does not match vehicle model '"@ + vehicle@ + "'"@,
            ValidationError::TooManyRules(n) => error.label() == "too_many_rules"@
                && error.words() == decimal(n as int) + " rules exceeds the limit of 256"@,
            ValidationError::InvalidRule { rule, reason } => error.label() == "invalid_rule"@
                && error.words() == "rule '"@ + rule@ + "': "@ + reason@,
            ValidationError::InvalidCondition { rule, reason } => error.label()
                == "invalid_condition"@ && error.words() == "rule '"@ + rule@ + "': condition: "@
                + reason@,
            ValidationError::Internal(t) => error.label() == "internal"@ && error.words()
                == "internal error: "@ + t@,
        },
{
}

/// A compiled rule has the settings that its definition states: the interval, the
/// age limit or else three intervals, the deadband or else zero; the unit of its
/// signal; and its condition.
pub proof fn law_compiled_rules(
    compiled: Seq<CompiledModel>,
    rules: RuleSetModel,
    catalog: CatalogModel,
    vehicle_model: Seq<char>,
    active_version: Option<u64>,
    i: int,
)
    requires
        catalog.fault() is None,
        problems(rules, catalog, vehicle_model, active_version).len() == 0,
        all_compiled_from(compiled, rules.rules, catalog),
        0 <= i < rules.rules.len(),
    ensures
        ({
            let rule = rules.rules[i];
            &&& compiled.len() == rules.rules.len()
            &&& compiled[i].def == rule
            &&& exists|k: int|
                0 <= k < catalog.signals.len() && (#[trigger] catalog.signals[k]).name
                    == rule.signal && compiled[i].unit == catalog.signals[k].unit
            &&& match compiled[i].behaviour {
                Behaviour::OnChange { deadband } => rule.mode is OnChange && (match rule.deadband {
                    Some(d) => deadband == d,
                    None => deadband.bits == 0,
                }),
                Behaviour::Periodic { interval_ms, max_age_ms } => rule.mode is Periodic
                    && rule.interval_ms == Some(interval_ms) && (match rule.max_age_ms {
                    Some(age) => max_age_ms == age,
                    None => max_age_ms == if 3 * interval_ms <= u64::MAX {
                        3 * interval_ms
                    } else {
                        u64::MAX as int
                    },
                }),
            }
            &&& rule.condition is None <==> compiled[i].condition is None
            &&& rule.condition matches Some(source) ==> compiled[i].condition matches Some(c)
                && c.source == source && accepted(c, catalog)
        }),
{
    lemma_each_in_order(rules.rules, rules.rules.len(), catalog);
    let rule = rules.rules[i];
    law_rule_fields(rule, catalog);
    let k = choose|k: int|
        0 <= k < catalog.signals.len() && (#[trigger] catalog.signals[k]).name == rule.signal;
    crate::catalog::law_each_signal_is_found(catalog, k);
}

/// The rules of a set are looked at in their order, each for its id and fields and
/// for its condition, and what is wrong with one is said after what is wrong with
/// those before it. Those of a set that is too large are not looked at.
pub proof fn law_rules_are_checked_in_order(
    rules: RuleSetModel,
    rule: RuleModel,
    catalog: CatalogModel,
    vehicle_model: Seq<char>,
    active_version: Option<u64>,
)
    ensures
        rules.rules.len() == 0 || rules.rules.len() > 256 ==> problems(
            rules,
            catalog,
            vehicle_model,
            active_version,
        ) == set_problems(rules, vehicle_model, active_version),
        rules.rules.len() < 256 ==> {
            let more = RuleSetModel { rules: rules.rules.push(rule), ..rules };
            let before = problems(rules, catalog, vehicle_model, active_version);
            let of_fields = if exists|j: int|
                0 <= j < rules.rules.len() && (#[trigger] rules.rules[j]).id == rule.id {
                seq![Problem::InvalidRule { rule: rule.id, reason: "duplicate rule id"@ }]
            } else {
                match field_problem(rule, catalog) {
                    Some(problem) => seq![problem],
                    None => Seq::empty(),
                }
            };
            let of_condition = match rule.condition {
                Some(source) => match condition_fault(source, catalog) {
                    Some(reason) => seq![Problem::InvalidCondition { rule: rule.id, reason }],
                    None => Seq::empty(),
                },
                None => Seq::empty(),
            };
            problems(more, catalog, vehicle_model, active_version) == before + of_fields
                + of_condition
        },
{
    let set = set_problems(rules, vehicle_model, active_version);
    if rules.rules.len() == 0 || rules.rules.len() > 256 {
        assert(problems(rules, catalog, vehicle_model, active_version) =~= set);
    }
    if rules.rules.len() < 256 {
        let n = rules.rules.len();
        let longer = rules.rules.push(rule);
        let more = RuleSetModel { rules: longer, ..rules };
        lemma_problems_of_a_start(rules.rules, rule, n, catalog);
        assert(set_problems(more, vehicle_model, active_version) =~= set);
        assert(longer[n as int] == rule);
        if repeated(longer, n as int) {
            let j = choose|j: int| 0 <= j < n && (#[trigger] longer[j]).id == rule.id;
            assert(rules.rules[j].id == rule.id);
        }
        if exists|j: int| 0 <= j < n && (#[trigger] rules.rules[j]).id == rule.id {
            let j = choose|j: int| 0 <= j < n && (#[trigger] rules.rules[j]).id == rule.id;
            assert(longer[j].id == rule.id);
        }
        let here = problems_at(longer, n as int, catalog);
        let before = problems_before(rules.rules, n, catalog);
        assert(set + (before + here) =~= set + before + here);
        assert(problems(more, catalog, vehicle_model, active_version) =~= problems(
            rules,
            catalog,
            vehicle_model,
            active_version,
        ) + here);
        let a = crate::compile::at_most_one(field_problem_at(longer, n as int, catalog));
        let b = crate::compile::at_most_one(condition_problem(rule, catalog));
        assert(set + before + (a + b) =~= set + before + a + b);
    }
}

proof fn lemma_problems_of_a_start(
    rules: Seq<RuleModel>,
    rule: RuleModel,
    n: nat,
    catalog: CatalogModel,
)
    requires
        n <= rules.len(),
    ensures
        problems_before(rules.push(rule), n, catalog) == problems_before(rules, n, catalog),
    decreases n,
{
    if n > 0 {
        lemma_problems_of_a_start(rules, rule, (n - 1) as nat, catalog);
        let longer = rules.push(rule);
        assert(longer[n - 1] == rules[n - 1]);
        if repeated(rules, n - 1) {
            let j = choose|j: int| 0 <= j < n - 1 && (#[trigger] rules[j]).id == rules[n - 1].id;
            assert(longer[j].id == longer[n - 1].id);
        }
        if repeated(longer, n - 1) {
            let j = choose|j: int| 0 <= j < n - 1 && (#[trigger] longer[j]).id == longer[n - 1].id;
            assert(rules[j].id == rules[n - 1].id);
        }
    }
}

/// Of the arguments of an operator the last that is not in order is reported;
/// without one the call is in order.
pub proof fn law_rejected_arguments(
    func: Seq<char>,
    args: Seq<Tree>,
    depth: nat,
    catalog: CatalogModel,
    i: int,
)
    requires
        depth <= 24,
        plain(Tree::Call { on_target: false, func, args: Seq::empty() }, catalog),
        -1 <= i < args.len(),
        forall|j: int|
            i < j < args.len() ==> tree_fault(#[trigger] args[j], depth + 1, catalog) is None,
    ensures
        ({
            let call = Tree::Call { on_target: false, func, args };
            &&& i == -1 ==> tree_fault(call, depth, catalog) is None
            &&& i >= 0 && tree_fault(args[i], depth + 1, catalog) is Some ==> tree_fault(
                call,
                depth,
                catalog,
            ) == tree_fault(args[i], depth + 1, catalog)
        }),
{
    lemma_operators(func);
    lemma_good_arguments_are_passed(args, (i + 1) as nat, depth + 1, catalog);
}

proof fn lemma_good_arguments_are_passed(
    args: Seq<Tree>,
    n: nat,
    depth: nat,
    catalog: CatalogModel,
)
    requires
        n <= args.len(),
        forall|j: int| n <= j < args.len() ==> tree_fault(#[trigger] args[j], depth, catalog) is None,
    ensures
        args_fault(args, args.len(), depth, catalog) == args_fault(args, n, depth, catalog),
    decreases args.len() - n,
{
    if n < args.len() {
        lemma_good_arguments_are_passed(args, n + 1, depth, catalog);
        assert(tree_fault(args[n as int], depth, catalog) is None);
    }
}

/// Errors are put into words one after the other, with semicolons between them.
pub proof fn law_words_of_errors(errors: Seq<ValidationError>, error: ValidationError)
    ensures
        words_from(Seq::empty(), 0).len() == 0,
        words_from(seq![error], 0) == error.words(),
        errors.len() > 0 ==> words_from(errors.push(error), 0) == words_from(errors, 0) + "; "@
            + error.words(),
{
    reveal_strlit("");
    let one = seq![error];
    assert(words_from(one, 1) =~= Seq::<char>::empty());
    assert(words_from(one, 0) =~= error.words());
    if errors.len() > 0 {
        lemma_words_grow(errors, error, 0);
    }
}

proof fn lemma_words_grow(errors: Seq<ValidationError>, error: ValidationError, i: nat)
    requires
        0 < errors.len(),
        i <= errors.len(),
    ensures
        words_from(errors.push(error), i) == words_from(errors, i) + "; "@ + error.words(),
    decreases errors.len() - i,
{
    let more = errors.push(error);
    if i < errors.len() {
        lemma_words_grow(errors, error, i + 1);
        assert(more[i as int] == errors[i as int]);
        assert(words_from(more, i) =~= words_from(errors, i) + "; "@ + error.words());
    } else {
        assert(words_from(more, i + 1) =~= Seq::<char>::empty());
        assert(words_from(more, i) =~= words_from(errors, i) + "; "@ + error.words());
    }
}

/// Why a condition has no truth value, in words.
pub proof fn law_evaluation_faults_in_words(t: Seq<char>)
    ensures
        EvalFault::Execution(t).words() == "evaluation failed: "@ + t,
        EvalFault::NotBool(t).words() == "condition returned a non-boolean value: "@ + t,
{
}

/// Those rules of a set are compiled that nothing is wrong with, in their order.
pub proof fn law_sound_rules(rules: Seq<RuleModel>, rule: RuleModel, catalog: CatalogModel)
    ensures
        sound_before(Seq::empty(), 0, catalog).len() == 0,
        ({
            let before = sound_before(rules, rules.len(), catalog);
            let after = sound_before(rules.push(rule), rules.len() + 1, catalog);
            let sound = (forall|j: int|
                0 <= j < rules.len() ==> (#[trigger] rules[j]).id != rule.id) && field_problem(
                rule,
                catalog,
            ) is None && condition_problem(rule, catalog) is None;
            &&& sound ==> after == before.push(rule)
            &&& !sound ==> after == before
        }),
{
    let n = rules.len();
    let longer = rules.push(rule);
    lemma_sound_rules_of_a_start(rules, rule, n, catalog);
    assert(longer[n as int] == rule);
    if repeated(longer, n as int) {
        let j = choose|j: int| 0 <= j < n && (#[trigger] longer[j]).id == rule.id;
        assert(rules[j].id == rule.id);
    } else {
        assert forall|j: int| 0 <= j < n implies (#[trigger] rules[j]).id != rule.id by {
            assert(longer[j] == rules[j]);
        }
    }
}

proof fn lemma_sound_rules_of_a_start(
    rules: Seq<RuleModel>,
    rule: RuleModel,
    n: nat,
    catalog: CatalogModel,
)
    requires
        n <= rules.len(),
    ensures
        sound_before(rules.push(rule), n, catalog) == sound_before(rules, n, catalog),
    decreases n,
{
    if n > 0 {
        lemma_sound_rules_of_a_start(rules, rule, (n - 1) as nat, catalog);
        let longer = rules.push(rule);
        assert(longer[n - 1] == rules[n - 1]);
        if repeated(rules, n - 1) {
            let j = choose|j: int| 0 <= j < n - 1 && (#[trigger] rules[j]).id == rules[n - 1].id;
            assert(longer[j].id == longer[n - 1].id);
        }
        if repeated(longer, n - 1) {
            let j = choose|j: int| 0 <= j < n - 1 && (#[trigger] longer[j]).id == longer[n - 1].id;
            assert(rules[j].id == rules[n - 1].id);
        }
    }
}

} // verus!
