//! Rule-driven vehicle telemetry.
//!
//! A vehicle sends signals as binary frames. A [`Catalog`] says which signals a
//! model has and how they are encoded; [`wire`] encodes and decodes packets of
//! frames. A [`RuleSet`] says what is to be logged; [`compile`] validates it
//! against a catalog, and an [`Engine`] runs it over the decoded samples. The
//! library performs no network or filesystem I/O, and time comes from an
//! injectable [`Clock`].
//!
//! Around this core stand the decisions of the daemon ([`ingest`],
//! [`engine_task`], [`output`]) and of the vehicle simulator ([`vehicle`],
//! [`garbage`], [`rng`]).
//!
//! Physical values are double-precision numbers. [`double`] computes them from
//! their bits, and states every operation as the exact result rounded to
//! nearest, ties to even.
//!
//! Functions named `law_..` state what holds of the library beyond a single
//! function. Those in the modules named `.._laws` say it in terms of fields,
//! bytes and numbers.

pub mod bytes;
pub mod catalog;
pub mod catalog_laws;
pub mod clock;
pub mod codec;
pub mod compile;
pub mod condition;
pub mod counters;
pub mod decimal;
pub mod double;
pub mod engine;
pub mod engine_laws;
pub mod engine_task;
pub mod enum_map;
pub mod expression;
pub mod garbage;
pub mod ingest;
pub mod name_set;
pub mod number_laws;
pub mod output;
pub mod packet_laws;
pub mod precision;
pub mod remainder;
pub mod rng;
pub mod rounding;
pub mod rule_laws;
pub mod ruleset;
pub mod simulator_laws;
pub mod text;
pub mod text_map;
pub mod totals_laws;
pub mod value;
pub mod vehicle;
pub mod view_laws;
pub mod wire;

pub use catalog::{
    Catalog, CatalogError, CatalogSpec, Endian, Signal, SignalDef, SignalType, ValueKind,
};
pub use clock::{Clock, FakeClock, SystemClock};
pub use compile::{
    compile_ruleset, is_valid_rule_id, CompiledRule, CompiledRuleSet, ValidationError,
    ValidationErrors, MAX_RULES, MIN_INTERVAL_MS,
};
pub use condition::{Condition, EvalError};
pub use double::Double;
pub use engine::{Engine, EvalReport, LogRecord};
pub use enum_map::EnumMap;
pub use expression::{MAX_CONDITION_CHARS, MAX_CONDITION_DEPTH};
pub use ruleset::{Mode, Rule, RuleSet, ANY_MODEL};
pub use value::SignalValue;
pub use wire::{
    decode_packet, encode_frame, encode_packet, DecodedPacket, EncodeError, FrameError,
    FrameErrorKind, PacketError, RawFrame, Sample,
};
