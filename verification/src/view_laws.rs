//! The content of a value is that of its fields.

use crate::catalog::{CatalogError, CatalogFault, CatalogSpec, SignalDef};
use crate::codec::{EncodeError, EncodeFault};
use crate::condition::{EvalError, EvalFault};
use crate::engine::{EvalReport, LogRecord};
use crate::engine_task::EngineStats;
use crate::expression::{Argument, ArgumentModel, Expr, Outcome, OutcomeModel, Tree};
use crate::ingest::IngestStats;
use crate::ruleset::{Rule, RuleSet};
use crate::value::{SignalValue, ValueModel};
use crate::wire::{DecodedPacket, RawFrame, Sample};
use vstd::prelude::*;

verus! {

/// Values keep their kind and what they hold.
pub proof fn law_content_of_values(value: SignalValue)
    ensures
        value@ == match value {
            SignalValue::Bool(b) => ValueModel::Bool(b),
            SignalValue::Num(v) => ValueModel::Num(v),
            SignalValue::Enum(label) => ValueModel::Enum(label@),
        },
{
}

/// The fields of samples, frames and decoded packets.
pub proof fn law_content_of_packets(sample: Sample, frame: RawFrame, packet: DecodedPacket, i: int)
    requires
        0 <= i < packet.samples@.len(),
    ensures
        sample@.signal_id == sample.signal_id,
        sample@.name == sample.name@,
        sample@.timestamp_us == sample.timestamp_us,
        sample@.value == sample.value@,
        frame@.signal_id == frame.signal_id,
        frame@.timestamp_us == frame.timestamp_us,
        frame@.payload == frame.payload@,
        packet@.samples.len() == packet.samples@.len(),
        packet@.samples[i] == packet.samples@[i]@,
        packet@.errors == packet.errors@,
        packet@.unknown_signals == packet.unknown_signals,
{
}

/// The fields of signal definitions and catalog documents.
pub proof fn law_content_of_catalogs(def: SignalDef, spec_doc: CatalogSpec, i: int)
    requires
        0 <= i < spec_doc.signals@.len(),
    ensures
        def@.id == def.id,
        def@.name == def.name@,
        def@.ty == def.ty,
        def@.endian == def.endian,
        def@.scale == def.scale,
        def@.offset == def.offset,
        def@.unit is None <==> def.unit is None,
        def.unit matches Some(unit) ==> def@.unit == Some(unit@),
        def@.enum_map is None <==> def.enum_map is None,
        def.enum_map matches Some(map) ==> def@.enum_map == Some(map@),
        spec_doc@.model == spec_doc.model@,
        spec_doc@.catalog_version == spec_doc.catalog_version,
        spec_doc@.signals.len() == spec_doc.signals@.len(),
        spec_doc@.signals[i] == spec_doc.signals@[i]@,
{
}

/// The fields of rules and rule sets.
pub proof fn law_content_of_rules(rule: Rule, set: RuleSet, i: int)
    requires
        0 <= i < set.rules@.len(),
    ensures
        rule@.id == rule.id@,
        rule@.signal == rule.signal@,
        rule@.mode == rule.mode,
        rule@.interval_ms == rule.interval_ms,
        rule@.max_age_ms == rule.max_age_ms,
        rule@.deadband == rule.deadband,
        rule@.condition is None <==> rule.condition is None,
        rule.condition matches Some(source) ==> rule@.condition == Some(source@),
        set@.ruleset_version == set.ruleset_version,
        set@.model == set.model@,
        set@.rules.len() == set.rules@.len(),
        set@.rules[i] == set.rules@[i]@,
{
}

/// The fields of log records.
pub proof fn law_content_of_records(record: LogRecord)
    ensures
        record@.ts_us == record.ts_us,
        record@.vin == record.vin@,
        record@.model == record.model@,
        record@.rule_id == record.rule_id@,
        record@.ruleset_version == record.ruleset_version,
        record@.signal == record.signal@,
        record@.value == record.value@,
        record@.unit is None <==> record.unit is None,
        record.unit matches Some(unit) ==> record@.unit == Some(unit@),
{
}

/// The entries of reports, in their order.
pub proof fn law_content_of_reports(report: EvalReport, i: int)
    ensures
        report@.records.len() == report.records@.len(),
        report@.eval_errors.len() == report.eval_errors@.len(),
        report@.stale_skips.len() == report.stale_skips@.len(),
        0 <= i < report.records@.len() ==> report@.records[i] == report.records@[i]@,
        0 <= i < report.eval_errors@.len() ==> report@.eval_errors[i].0
            == report.eval_errors@[i].0@ && report@.eval_errors[i].1 == report.eval_errors@[i].1@,
        0 <= i < report.stale_skips@.len() ==> report@.stale_skips[i] == report.stale_skips@[i]@,
{
}

/// Totals, counter by counter.
pub proof fn law_content_of_totals(ingest: IngestStats, engine: EngineStats)
    ensures
        ingest@.packets == ingest.packets,
        ingest@.bytes == ingest.bytes,
        ingest@.frames_decoded == ingest.frames_decoded,
        ingest@.unknown_signals == ingest.unknown_signals,
        ingest@.decode_errors == ingest.decode_errors@,
        engine@.samples == engine.samples,
        engine@.records == engine.records@,
        engine@.eval_errors == engine.eval_errors@,
        engine@.stale_skips == engine.stale_skips@,
{
}

/// Errors keep their kind and what they hold.
pub proof fn law_content_of_errors(catalog: CatalogError, encode: EncodeError, eval: EvalError)
    ensures
        catalog@ == match catalog {
            CatalogError::EmptyModel => CatalogFault::EmptyModel,
            CatalogError::DuplicateId(id) => CatalogFault::DuplicateId(id),
            CatalogError::DuplicateName(name) => CatalogFault::DuplicateName(name@),
            CatalogError::InvalidName(name) => CatalogFault::InvalidName(name@),
            CatalogError::MissingEndian(name) => CatalogFault::MissingEndian(name@),
            CatalogError::InvalidScaleOffset(name) => CatalogFault::InvalidScaleOffset(name@),
            CatalogError::InvalidEnum { signal, reason } => CatalogFault::InvalidEnum {
                signal: signal@,
                reason: reason@,
            },
        },
        encode@ == match encode {
            EncodeError::NoFrames => EncodeFault::NoFrames,
            EncodeError::TooManyFrames(n) => EncodeFault::TooManyFrames(n),
            EncodeError::PayloadTooLong { signal_id, len } => EncodeFault::PayloadTooLong {
                signal_id,
                len,
            },
            EncodeError::Oversize(n) => EncodeFault::Oversize(n),
            EncodeError::KindMismatch { signal, value } => EncodeFault::KindMismatch {
                signal: signal@,
                value: value@,
            },
            EncodeError::OutOfRange { signal, value } => EncodeFault::OutOfRange {
                signal: signal@,
                value,
            },
            EncodeError::UnknownEnumLabel { signal, label } => EncodeFault::UnknownEnumLabel {
                signal: signal@,
                label: label@,
            },
        },
        eval@ == match eval {
            EvalError::Execution(t) => EvalFault::Execution(t@),
            EvalError::NotBool(t) => EvalFault::NotBool(t@),
        },
{
}

/// Expressions, node by node.
pub proof fn law_content_of_expressions(e: Expr)
    ensures
        match e {
            Expr::Ident(name) => e@ == Tree::Ident(name@),
            Expr::Literal(kind) => e@ == Tree::Literal(kind),
            Expr::Call { on_target, func, args } => {
                &&& e@ is Call
                &&& e@->on_target == on_target
                &&& e@->func == func@
                &&& e@->args.len() == args@.len()
                &&& forall|i: int| 0 <= i < args@.len() ==> #[trigger] e@->args[i] == args@[i]@
            },
            Expr::Select => e@ is Select,
            Expr::Comprehension => e@ is Comprehension,
            Expr::ListLiteral => e@ is ListLiteral,
            Expr::MapLiteral => e@ is MapLiteral,
            Expr::StructLiteral => e@ is StructLiteral,
            Expr::Unspecified => e@ is Unspecified,
        },
{
}

/// What expressions are run with, and what running them gives.
pub proof fn law_content_of_runs(argument: Argument, outcome: Outcome)
    ensures
        argument@ == match argument {
            Argument::Bool(b) => ArgumentModel::Bool(b),
            Argument::Number(t) => ArgumentModel::Number(t@),
            Argument::Text(t) => ArgumentModel::Text(t@),
        },
        outcome@ == match outcome {
            Outcome::Bool(b) => OutcomeModel::Bool(b),
            Outcome::Other(t) => OutcomeModel::Other(t@),
            Outcome::Failed(t) => OutcomeModel::Failed(t@),
        },
{
}

} // verus!
