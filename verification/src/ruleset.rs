//! Rule set document, exactly as fetched from the cloud.

use crate::double::Double;
use crate::text::same_text;
use vstd::prelude::*;

verus! {

/// `model` value that matches every vehicle model.
pub const ANY_MODEL: &'static str = "*";

/// When a rule logs.
#[derive(Debug, Clone, Copy, PartialEq, Eq, Structural)]
pub enum Mode {
    OnChange,
    Periodic,
}

/// One rule of a rule set.
#[derive(Debug, PartialEq)]
pub struct Rule {
    pub id: String,
    pub signal: String,
    pub mode: Mode,
    /// `periodic` only: emit interval.
    pub interval_ms: Option<u64>,
    /// `periodic` only: skip values older than this (default `3 * interval_ms`).
    pub max_age_ms: Option<u64>,
    /// `on_change` only, numeric signals: minimum change to log (default 0).
    pub deadband: Option<Double>,
    /// Optional boolean expression over catalog signal names.
    pub condition: Option<String>,
}

/// The content of a [`Rule`].
pub struct RuleModel {
    pub id: Seq<char>,
    pub signal: Seq<char>,
    pub mode: Mode,
    pub interval_ms: Option<u64>,
    pub max_age_ms: Option<u64>,
    pub deadband: Option<Double>,
    pub condition: Option<Seq<char>>,
}

impl View for Rule {
    type V = RuleModel;

    open spec fn view(&self) -> RuleModel {
        RuleModel {
            id: self.id@,
            signal: self.signal@,
            mode: self.mode,
            interval_ms: self.interval_ms,
            max_age_ms: self.max_age_ms,
            deadband: self.deadband,
            condition: crate::catalog::text_option(self.condition),
        }
    }
}

impl RuleModel {
    /// Whether two definitions are the same; deadbands compare as numbers.
    pub open spec fn same(self, other: RuleModel) -> bool {
        &&& self.id == other.id
        &&& self.signal == other.signal
        &&& self.mode == other.mode
        &&& self.interval_ms == other.interval_ms
        &&& self.max_age_ms == other.max_age_ms
        &&& match (self.deadband, other.deadband) {
            (None, None) => true,
            (Some(a), Some(b)) => a.same(b),
            _ => false,
        }
        &&& self.condition == other.condition
    }
}

impl Clone for Rule {
    fn clone(&self) -> (r: Rule)
        ensures
            r@ == self@,
    {
        Rule {
            id: self.id.clone(),
            signal: self.signal.clone(),
            mode: self.mode,
            interval_ms: self.interval_ms,
            max_age_ms: self.max_age_ms,
            deadband: self.deadband,
            condition: match &self.condition {
                Some(c) => Some(c.clone()),
                None => None,
            },
        }
    }
}

fn same_number(a: Option<u64>, b: Option<u64>) -> (r: bool)
    ensures
        r == (a == b),
{
    match (a, b) {
        (None, None) => true,
        (Some(x), Some(y)) => x == y,
        _ => false,
    }
}

impl Rule {
    /// Whether two definitions are the same; deadbands compare as numbers.
    pub fn equals(&self, other: &Rule) -> (r: bool)
        ensures
            r == self@.same(other@),
            r <==> {
                &&& self.id@ == other.id@
                &&& self.signal@ == other.signal@
                &&& self.mode == other.mode
                &&& self.interval_ms == other.interval_ms
                &&& self.max_age_ms == other.max_age_ms
                &&& self.deadband is None <==> other.deadband is None
                &&& self.deadband matches Some(a) ==> a.same(other.deadband->0)
                &&& self.condition is None <==> other.condition is None
                &&& self.condition matches Some(a) ==> a@ == (other.condition->0)@
            },
    {
        same_text(self.id.as_str(), other.id.as_str()) && same_text(
            self.signal.as_str(),
            other.signal.as_str(),
        ) && self.mode == other.mode && same_number(self.interval_ms, other.interval_ms)
            && same_number(self.max_age_ms, other.max_age_ms) && (match (
            self.deadband,
            other.deadband,
        ) {
            (None, None) => true,
            (Some(a), Some(b)) => a.equals(b),
            _ => false,
        }) && (match (&self.condition, &other.condition) {
            (None, None) => true,
            (Some(a), Some(b)) => same_text(a.as_str(), b.as_str()),
            _ => false,
        })
    }
}

/// A rule set.
#[derive(Debug, PartialEq)]
pub struct RuleSet {
    pub ruleset_version: u64,
    pub model: String,
    pub rules: Vec<Rule>,
}

pub open spec fn rule_models(rules: Seq<Rule>) -> Seq<RuleModel> {
    Seq::new(rules.len(), |i: int| rules[i]@)
}

/// The content of a [`RuleSet`].
pub struct RuleSetModel {
    pub ruleset_version: u64,
    pub model: Seq<char>,
    pub rules: Seq<RuleModel>,
}

impl View for RuleSet {
    type V = RuleSetModel;

    open spec fn view(&self) -> RuleSetModel {
        RuleSetModel {
            ruleset_version: self.ruleset_version,
            model: self.model@,
            rules: rule_models(self.rules@),
        }
    }
}

} // verus!
