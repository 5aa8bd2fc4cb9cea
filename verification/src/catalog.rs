//! Per-vehicle-model signal catalog.

use crate::double::Double;
use crate::enum_map::EnumMap;
use crate::text::{
    blank, decimal, decimal_text, is_blank, is_word, is_word_char, join, parse_integer, same_text,
    spelled_integer,
};
use crate::text_map::TextMap;
use std::collections::HashMap;
use vstd::prelude::*;

verus! {

/// Wire type of a signal's raw payload.
#[derive(Debug, Clone, Copy, PartialEq, Eq, Hash, Structural)]
pub enum SignalType {
    Bool,
    U8,
    I8,
    U16,
    I16,
    U32,
    I32,
    U64,
    I64,
    F32,
    F64,
}

impl SignalType {
    pub const ALL: [SignalType; 11] = [
        SignalType::Bool,
        SignalType::U8,
        SignalType::I8,
        SignalType::U16,
        SignalType::I16,
        SignalType::U32,
        SignalType::I32,
        SignalType::U64,
        SignalType::I64,
        SignalType::F32,
        SignalType::F64,
    ];

    /// Payload size in bytes.
    pub open spec fn width(self) -> usize {
        match self {
            SignalType::Bool | SignalType::U8 | SignalType::I8 => 1,
            SignalType::U16 | SignalType::I16 => 2,
            SignalType::U32 | SignalType::I32 | SignalType::F32 => 4,
            SignalType::U64 | SignalType::I64 | SignalType::F64 => 8,
        }
    }

    /// Smallest and largest raw value of an integer type.
    pub open spec fn range(self) -> Option<(int, int)> {
        match self {
            SignalType::U8 => Some((0, 0xff)),
            SignalType::I8 => Some((-0x80, 0x7f)),
            SignalType::U16 => Some((0, 0xffff)),
            SignalType::I16 => Some((-0x8000, 0x7fff)),
            SignalType::U32 => Some((0, 0xffff_ffff)),
            SignalType::I32 => Some((-0x8000_0000, 0x7fff_ffff)),
            SignalType::U64 => Some((0, 0xffff_ffff_ffff_ffff)),
            SignalType::I64 => Some((-0x8000_0000_0000_0000, 0x7fff_ffff_ffff_ffff)),
            SignalType::Bool | SignalType::F32 | SignalType::F64 => None,
        }
    }

    /// Whether an integer is a raw value of this integer type.
    pub open spec fn holds(self, i: int) -> bool {
        match self.range() {
            Some((lo, hi)) => lo <= i <= hi,
            None => false,
        }
    }

    pub open spec fn title(self) -> Seq<char> {
        match self {
            SignalType::Bool => "Bool"@,
            SignalType::U8 => "U8"@,
            SignalType::I8 => "I8"@,
            SignalType::U16 => "U16"@,
            SignalType::I16 => "I16"@,
            SignalType::U32 => "U32"@,
            SignalType::I32 => "I32"@,
            SignalType::U64 => "U64"@,
            SignalType::I64 => "I64"@,
            SignalType::F32 => "F32"@,
            SignalType::F64 => "F64"@,
        }
    }

    /// Payload size in bytes.
    pub fn size(self) -> (n: usize)
        ensures
            n == self.width(),
    {
        match self {
            SignalType::Bool | SignalType::U8 | SignalType::I8 => 1,
            SignalType::U16 | SignalType::I16 => 2,
            SignalType::U32 | SignalType::I32 | SignalType::F32 => 4,
            SignalType::U64 | SignalType::I64 | SignalType::F64 => 8,
        }
    }

    pub fn is_float(self) -> (r: bool)
        ensures
            r == (self is F32 || self is F64),
    {
        match self {
            SignalType::F32 | SignalType::F64 => true,
            _ => false,
        }
    }

    /// Inclusive raw range for integer types, `None` for bool and floats.
    pub fn int_range(self) -> (r: Option<(i128, i128)>)
        ensures
            r is Some <==> self.range() is Some,
            r matches Some(b) ==> self.range() == Some((b.0 as int, b.1 as int)),
    {
        match self {
            SignalType::U8 => Some((0, 0xff)),
            SignalType::I8 => Some((-0x80, 0x7f)),
            SignalType::U16 => Some((0, 0xffff)),
            SignalType::I16 => Some((-0x8000, 0x7fff)),
            SignalType::U32 => Some((0, 0xffff_ffff)),
            SignalType::I32 => Some((-0x8000_0000, 0x7fff_ffff)),
            SignalType::U64 => Some((0, 0xffff_ffff_ffff_ffff)),
            SignalType::I64 => Some((-0x8000_0000_0000_0000, 0x7fff_ffff_ffff_ffff)),
            SignalType::Bool | SignalType::F32 | SignalType::F64 => None,
        }
    }

    /// The type's name, for messages.
    pub fn name(self) -> (r: &'static str)
        ensures
            r@ == self.title(),
    {
        match self {
            SignalType::Bool => "Bool",
            SignalType::U8 => "U8",
            SignalType::I8 => "I8",
            SignalType::U16 => "U16",
            SignalType::I16 => "I16",
            SignalType::U32 => "U32",
            SignalType::I32 => "I32",
            SignalType::U64 => "U64",
            SignalType::I64 => "I64",
            SignalType::F32 => "F32",
            SignalType::F64 => "F64",
        }
    }
}

/// Byte order of a multi-byte payload.
#[derive(Debug, Clone, Copy, PartialEq, Eq, Hash, Structural)]
pub enum Endian {
    Big,
    Little,
}

/// Kind of physical value a signal decodes to.
#[derive(Debug, Clone, Copy, PartialEq, Eq, Hash, Structural)]
pub enum ValueKind {
    Bool,
    Num,
    Enum,
}

/// One signal definition, exactly as written in the catalog document.
#[derive(Debug, PartialEq)]
pub struct SignalDef {
    pub id: u16,
    pub name: String,
    pub ty: SignalType,
    pub endian: Option<Endian>,
    pub scale: Double,
    pub offset: Double,
    pub unit: Option<String>,
    /// Raw codes and their labels.
    pub enum_map: Option<EnumMap>,
}

/// The content of a [`SignalDef`].
pub struct DefModel {
    pub id: u16,
    pub name: Seq<char>,
    pub ty: SignalType,
    pub endian: Option<Endian>,
    pub scale: Double,
    pub offset: Double,
    pub unit: Option<Seq<char>>,
    pub enum_map: Option<Seq<(Seq<char>, Seq<char>)>>,
}

/// The content of an optional text.
pub open spec fn text_option(t: Option<String>) -> Option<Seq<char>> {
    match t {
        Some(s) => Some(s@),
        None => None,
    }
}

impl View for SignalDef {
    type V = DefModel;

    open spec fn view(&self) -> DefModel {
        DefModel {
            id: self.id,
            name: self.name@,
            ty: self.ty,
            endian: self.endian,
            scale: self.scale,
            offset: self.offset,
            unit: text_option(self.unit),
            enum_map: match self.enum_map {
                Some(map) => Some(map@),
                None => None,
            },
        }
    }
}

impl Clone for SignalDef {
    fn clone(&self) -> (r: Self)
        ensures
            r@ == self@,
    {
        SignalDef {
            id: self.id,
            name: self.name.clone(),
            ty: self.ty,
            endian: self.endian,
            scale: self.scale,
            offset: self.offset,
            unit: match &self.unit {
                Some(u) => Some(u.clone()),
                None => None,
            },
            enum_map: match &self.enum_map {
                Some(map) => Some(map.clone()),
                None => None,
            },
        }
    }
}

/// Catalog document, exactly as written.
#[derive(Debug, PartialEq)]
pub struct CatalogSpec {
    pub model: String,
    pub catalog_version: u32,
    pub signals: Vec<SignalDef>,
}

/// The content of a catalog or of its document.
pub struct CatalogModel {
    pub model: Seq<char>,
    pub catalog_version: u32,
    pub signals: Seq<DefModel>,
}

pub open spec fn def_models(defs: Seq<SignalDef>) -> Seq<DefModel> {
    Seq::new(defs.len(), |i: int| defs[i]@)
}

impl View for CatalogSpec {
    type V = CatalogModel;

    open spec fn view(&self) -> CatalogModel {
        CatalogModel {
            model: self.model@,
            catalog_version: self.catalog_version,
            signals: def_models(self.signals@),
        }
    }
}

/// Why a catalog document is not valid.
#[derive(Debug, Clone, PartialEq, Eq)]
pub enum CatalogError {
    EmptyModel,
    DuplicateId(u16),
    DuplicateName(String),
    InvalidName(String),
    MissingEndian(String),
    InvalidScaleOffset(String),
    InvalidEnum { signal: String, reason: String },
}

/// The content of a [`CatalogError`].
pub enum CatalogFault {
    EmptyModel,
    DuplicateId(u16),
    DuplicateName(Seq<char>),
    InvalidName(Seq<char>),
    MissingEndian(Seq<char>),
    InvalidScaleOffset(Seq<char>),
    InvalidEnum { signal: Seq<char>, reason: Seq<char> },
}

impl CatalogFault {
    /// The fault in words.
    pub open spec fn words(self) -> Seq<char> {
        match self {
            CatalogFault::EmptyModel => "catalog model must not be empty"@,
            CatalogFault::DuplicateId(id) => "duplicate signal id "@ + decimal(id as int),
            CatalogFault::DuplicateName(n) => "duplicate signal name '"@ + n + "'"@,
            CatalogFault::InvalidName(n) => "invalid signal name '"@ + n
                + "' (must match ^[a-z][a-z0-9_]{0,63}$)"@,
            CatalogFault::MissingEndian(n) => "signal '"@ + n
                + "' is multi-byte and must declare 'endian'"@,
            CatalogFault::InvalidScaleOffset(n) => "signal '"@ + n
                + "' has a non-finite or zero scale, or a non-finite offset"@,
            CatalogFault::InvalidEnum { signal, reason } => "signal '"@ + signal
                + "' has an invalid enum: "@ + reason,
        }
    }
}

impl CatalogError {
    /// The error in words.
    pub fn message(&self) -> (r: String)
        ensures
            r@ == self@.words(),
    {
        match self {
            CatalogError::EmptyModel => "catalog model must not be empty".to_owned(),
            CatalogError::DuplicateId(id) => {
                let mut r: String = "duplicate signal id ".to_owned();
                r.append(decimal_text(*id as i128).as_str());
                r
            },
            CatalogError::DuplicateName(n) => join("duplicate signal name '", n.as_str(), "'"),
            CatalogError::InvalidName(n) => join(
                "invalid signal name '",
                n.as_str(),
                "' (must match ^[a-z][a-z0-9_]{0,63}$)",
            ),
            CatalogError::MissingEndian(n) => join(
                "signal '",
                n.as_str(),
                "' is multi-byte and must declare 'endian'",
            ),
            CatalogError::InvalidScaleOffset(n) => join(
                "signal '",
                n.as_str(),
                "' has a non-finite or zero scale, or a non-finite offset",
            ),
            CatalogError::InvalidEnum { signal, reason } => {
                let mut r: String = join("signal '", signal.as_str(), "' has an invalid enum: ");
                r.append(reason.as_str());
                r
            },
        }
    }
}

impl View for CatalogError {
    type V = CatalogFault;

    open spec fn view(&self) -> CatalogFault {
        match self {
            CatalogError::EmptyModel => CatalogFault::EmptyModel,
            CatalogError::DuplicateId(id) => CatalogFault::DuplicateId(*id),
            CatalogError::DuplicateName(n) => CatalogFault::DuplicateName(n@),
            CatalogError::InvalidName(n) => CatalogFault::InvalidName(n@),
            CatalogError::MissingEndian(n) => CatalogFault::MissingEndian(n@),
            CatalogError::InvalidScaleOffset(n) => CatalogFault::InvalidScaleOffset(n@),
            CatalogError::InvalidEnum { signal, reason } => CatalogFault::InvalidEnum {
                signal: signal@,
                reason: reason@,
            },
        }
    }
}

/// Matches `^[a-z][a-z0-9_]{0,63}$`.
pub open spec fn valid_signal_name(name: Seq<char>) -> bool {
    &&& 1 <= name.len() <= 64
    &&& 'a' <= name[0] <= 'z'
    &&& forall|i: int| 0 <= i < name.len() ==> is_word_char(#[trigger] name[i])
}

/// Returns true if `name` matches `^[a-z][a-z0-9_]{0,63}$`.
pub fn is_valid_signal_name(name: &str) -> (r: bool)
    ensures
        r == valid_signal_name(name@),
{
    let n: usize = name.unicode_len();
    if n == 0 || n > 64 || !is_word(name) {
        return false;
    }
    let first: char = name.get_char(0);
    'a' <= first && first <= 'z'
}

/// What is wrong with the enum entries from `i` on, if anything.
pub open spec fn entries_fault(
    entries: Seq<(Seq<char>, Seq<char>)>,
    ty: SignalType,
    i: nat,
) -> Option<Seq<char>>
    recommends
        ty.range() is Some,
    decreases entries.len() - i,
{
    let (lo, hi) = ty.range()->0;
    if i >= entries.len() {
        None
    } else {
        let (key, label) = entries[i as int];
        match spelled_integer(key) {
            None => Some("key '"@ + key + "' is not an integer"@),
            Some(raw) => if raw < lo || raw > hi {
                Some("key "@ + decimal(raw) + " is out of range for "@ + ty.title())
            } else if label.len() == 0 {
                Some("key "@ + decimal(raw) + " has an empty label"@)
            } else if exists|j: int| 0 <= j < i && (#[trigger] entries[j]).1 == label {
                Some("duplicate label '"@ + label + "'"@)
            } else {
                entries_fault(entries, ty, i + 1)
            },
        }
    }
}

impl DefModel {
    /// Kind of physical value the signal decodes to.
    pub open spec fn kind(self) -> ValueKind {
        if self.ty is Bool {
            ValueKind::Bool
        } else if self.enum_map is Some {
            ValueKind::Enum
        } else {
            ValueKind::Num
        }
    }

    /// Byte order; big where none is declared.
    pub open spec fn byte_order(self) -> Endian {
        match self.endian {
            Some(e) => e,
            None => Endian::Big,
        }
    }

    pub open spec fn enum_fault(self) -> Option<Seq<char>> {
        match self.enum_map {
            None => None,
            Some(entries) => if self.ty.range() is None {
                Some("enum requires an integer type, got "@ + self.ty.title())
            } else if entries.len() == 0 {
                Some("enum map is empty"@)
            } else {
                entries_fault(entries, self.ty, 0)
            },
        }
    }

    /// What is wrong with this definition on its own, if anything.
    pub open spec fn fault(self) -> Option<CatalogFault> {
        if !valid_signal_name(self.name) {
            Some(CatalogFault::InvalidName(self.name))
        } else if self.ty.width() > 1 && self.endian is None {
            Some(CatalogFault::MissingEndian(self.name))
        } else if !self.scale.finite() || self.scale.zero() || !self.offset.finite() {
            Some(CatalogFault::InvalidScaleOffset(self.name))
        } else {
            match self.enum_fault() {
                Some(reason) => Some(CatalogFault::InvalidEnum { signal: self.name, reason }),
                None => None,
            }
        }
    }

    /// The enum entries; none for a signal without an enum.
    pub open spec fn entries(self) -> Seq<(Seq<char>, Seq<char>)> {
        match self.enum_map {
            Some(entries) => entries,
            None => Seq::empty(),
        }
    }

    /// Label of a raw code. Where several entries spell the code, the last one counts.
    pub open spec fn label_of(self, raw: int) -> Option<Seq<char>> {
        label_before(self.entries(), raw, self.entries().len())
    }

    /// Raw code of a label.
    pub open spec fn code_of(self, label: Seq<char>) -> Option<int> {
        code_before(self.entries(), label, self.entries().len())
    }
}

pub open spec fn label_before(
    entries: Seq<(Seq<char>, Seq<char>)>,
    raw: int,
    n: nat,
) -> Option<Seq<char>>
    decreases n,
{
    if n == 0 {
        None
    } else if spelled_integer(entries[n - 1].0) == Some(raw) {
        Some(entries[n - 1].1)
    } else {
        label_before(entries, raw, (n - 1) as nat)
    }
}

pub open spec fn code_before(
    entries: Seq<(Seq<char>, Seq<char>)>,
    label: Seq<char>,
    n: nat,
) -> Option<int>
    decreases n,
{
    if n == 0 {
        None
    } else if entries[n - 1].1 == label {
        spelled_integer(entries[n - 1].0)
    } else {
        code_before(entries, label, (n - 1) as nat)
    }
}

/// What is wrong with the signals from `i` on, if anything.
pub open spec fn signals_fault(signals: Seq<DefModel>, i: nat) -> Option<CatalogFault>
    decreases signals.len() - i,
{
    if i >= signals.len() {
        None
    } else if exists|j: int| 0 <= j < i && (#[trigger] signals[j]).id == signals[i as int].id {
        Some(CatalogFault::DuplicateId(signals[i as int].id))
    } else if exists|j: int| 0 <= j < i && (#[trigger] signals[j]).name == signals[i as int].name {
        Some(CatalogFault::DuplicateName(signals[i as int].name))
    } else {
        match signals[i as int].fault() {
            Some(fault) => Some(fault),
            None => signals_fault(signals, i + 1),
        }
    }
}

impl CatalogModel {
    /// What is wrong with the document, if anything.
    pub open spec fn fault(self) -> Option<CatalogFault> {
        if blank(self.model) {
            Some(CatalogFault::EmptyModel)
        } else {
            signals_fault(self.signals, 0)
        }
    }

    pub open spec fn has_id(self, id: u16) -> bool {
        exists|i: int| 0 <= i < self.signals.len() && (#[trigger] self.signals[i]).id == id
    }

    pub open spec fn has_name(self, name: Seq<char>) -> bool {
        exists|i: int| 0 <= i < self.signals.len() && (#[trigger] self.signals[i]).name == name
    }

    /// The signal with an id.
    pub open spec fn find_id(self, id: u16) -> Option<DefModel> {
        if self.has_id(id) {
            Some(
                self.signals[choose|i: int|
                    0 <= i < self.signals.len() && (#[trigger] self.signals[i]).id == id],
            )
        } else {
            None
        }
    }

    /// The signal with a name.
    pub open spec fn find_name(self, name: Seq<char>) -> Option<DefModel> {
        if self.has_name(name) {
            Some(
                self.signals[choose|i: int|
                    0 <= i < self.signals.len() && (#[trigger] self.signals[i]).name == name],
            )
        } else {
            None
        }
    }
}

/// A validated signal with its enum codes.
#[derive(Debug)]
pub struct Signal {
    def: SignalDef,
    codes: Vec<(i128, String)>,
}

impl View for Signal {
    type V = DefModel;

    closed spec fn view(&self) -> DefModel {
        self.def@
    }
}

impl Signal {
    #[verifier::type_invariant]
    spec fn valid(self) -> bool {
        &&& self.def@.fault() is None
        &&& self.codes@.len() == self.def@.entries().len()
        &&& forall|i: int|
            0 <= i < self.codes@.len() ==> {
                let (raw, label) = #[trigger] self.codes@[i];
                &&& spelled_integer(self.def@.entries()[i].0) == Some(raw as int)
                &&& label@ == self.def@.entries()[i].1
            }
    }

    /// Validates one definition.
    pub fn new(def: SignalDef) -> (r: Result<Signal, CatalogError>)
        ensures
            match r {
                Ok(signal) => def@.fault() is None && signal@ == def@,
                Err(e) => def@.fault() == Some(e@),
            },
    {
        if !is_valid_signal_name(def.name.as_str()) {
            return Err(CatalogError::InvalidName(def.name));
        }
        if def.ty.size() > 1 && def.endian.is_none() {
            return Err(CatalogError::MissingEndian(def.name));
        }
        if !def.scale.is_finite() || def.scale.is_zero() || !def.offset.is_finite() {
            return Err(CatalogError::InvalidScaleOffset(def.name));
        }
        let mut codes: Vec<(i128, String)> = Vec::new();
        if let Some(map) = &def.enum_map {
            match enum_codes(map, def.ty) {
                Ok(c) => {
                    codes = c;
                },
                Err(reason) => {
                    return Err(CatalogError::InvalidEnum { signal: def.name.clone(), reason });
                },
            }
        }
        Ok(Signal { def, codes })
    }

    pub fn def(&self) -> (r: &SignalDef)
        ensures
            r@ == self@,
            r@.fault() is None,
    {
        proof {
            use_type_invariant(self);
        }
        &self.def
    }

    pub fn id(&self) -> (r: u16)
        ensures
            r == self@.id,
    {
        self.def.id
    }

    pub fn name(&self) -> (r: &str)
        ensures
            r@ == self@.name,
    {
        self.def.name.as_str()
    }

    pub fn ty(&self) -> (r: SignalType)
        ensures
            r == self@.ty,
    {
        self.def.ty
    }

    pub fn unit(&self) -> (r: Option<&str>)
        ensures
            r is Some <==> self@.unit is Some,
            r matches Some(u) ==> self@.unit == Some(u@),
    {
        match &self.def.unit {
            Some(u) => Some(u.as_str()),
            None => None,
        }
    }

    /// Byte order; single-byte types may declare none and report `Big`.
    pub fn endian(&self) -> (r: Endian)
        ensures
            r == self@.byte_order(),
    {
        match self.def.endian {
            Some(e) => e,
            None => Endian::Big,
        }
    }

    pub fn kind(&self) -> (r: ValueKind)
        ensures
            r == self@.kind(),
    {
        if self.def.ty == SignalType::Bool {
            ValueKind::Bool
        } else if self.def.enum_map.is_some() {
            ValueKind::Enum
        } else {
            ValueKind::Num
        }
    }

    /// Label of a raw code.
    pub fn enum_label(&self, raw: i128) -> (r: Option<&str>)
        ensures
            r is Some <==> self@.label_of(raw as int) is Some,
            r matches Some(label) ==> self@.label_of(raw as int) == Some(label@),
    {
        proof {
            use_type_invariant(self);
        }
        let mut n: usize = self.codes.len();
        while n > 0
            invariant
                n <= self.codes@.len(),
                self.valid(),
                label_before(self@.entries(), raw as int, n as nat) == self@.label_of(raw as int),
            decreases n,
        {
            n = n - 1;
            assert(spelled_integer(self.def@.entries()[n as int].0) == Some(
                self.codes@[n as int].0 as int,
            ));
            if self.codes[n].0 == raw {
                return Some(self.codes[n].1.as_str());
            }
        }
        None
    }

    /// Raw code of a label.
    pub fn enum_raw(&self, label: &str) -> (r: Option<i128>)
        ensures
            r is Some <==> self@.code_of(label@) is Some,
            r matches Some(raw) ==> self@.code_of(label@) == Some(raw as int),
    {
        proof {
            use_type_invariant(self);
        }
        let mut n: usize = self.codes.len();
        while n > 0
            invariant
                n <= self.codes@.len(),
                self.valid(),
                code_before(self@.entries(), label@, n as nat) == self@.code_of(label@),
            decreases n,
        {
            n = n - 1;
            assert(self.codes@[n as int].1@ == self.def@.entries()[n as int].1);
            if same_text(self.codes[n].1.as_str(), label) {
                return Some(self.codes[n].0);
            }
        }
        None
    }
}

/// Reads and checks the entries of an enum.
fn enum_codes(map: &EnumMap, ty: SignalType) -> (r: Result<
    Vec<(i128, String)>,
    String,
>)
    ensures
        ({
            let entries = map@;
            let fault = if ty.range() is None {
                Some("enum requires an integer type, got "@ + ty.title())
            } else if entries.len() == 0 {
                Some("enum map is empty"@)
            } else {
                entries_fault(entries, ty, 0)
            };
            match r {
                Ok(codes) => {
                    &&& fault is None
                    &&& codes@.len() == entries.len()
                    &&& forall|i: int|
                        0 <= i < codes@.len() ==> {
                            let (raw, label) = #[trigger] codes@[i];
                            &&& spelled_integer(entries[i].0) == Some(raw as int)
                            &&& label@ == entries[i].1
                        }
                },
                Err(reason) => fault == Some(reason@),
            }
        }),
{
    let ghost entries = map@;
    let (lo, hi) = match ty.int_range() {
        Some(range) => range,
        None => {
            let mut reason: String = String::new();
            reason.append("enum requires an integer type, got ");
            reason.append(ty.name());
            return Err(reason);
        },
    };
    if map.len() == 0 {
        return Err("enum map is empty".to_owned());
    }
    let mut codes: Vec<(i128, String)> = Vec::new();
    let mut i: usize = 0;
    while i < map.len()
        invariant
            i <= map@.len(),
            entries == map@,
            ty.range() == Some((lo as int, hi as int)),
            entries_fault(entries, ty, 0) == entries_fault(entries, ty, i as nat),
            codes@.len() == i,
            forall|j: int|
                0 <= j < i ==> {
                    let (raw, label) = #[trigger] codes@[j];
                    &&& spelled_integer(entries[j].0) == Some(raw as int)
                    &&& label@ == entries[j].1
                },
        decreases map@.len() - i,
    {
        let key: &str = map.code_at(i);
        let label: &str = map.label_at(i);
        assert(entries[i as int] == (key@, label@));
        let raw: i128 = match parse_integer(key) {
            Some(raw) => raw,
            None => {
                return Err(join("key '", key, "' is not an integer"));
            },
        };
        if raw < lo || raw > hi {
            let mut reason: String = join("key ", decimal_text(raw).as_str(), " is out of range for ");
            reason.append(ty.name());
            return Err(reason);
        }
        if label.is_empty() {
            return Err(join("key ", decimal_text(raw).as_str(), " has an empty label"));
        }
        let mut j: usize = 0;
        while j < i
            invariant
                j <= i < map@.len(),
                codes@.len() == i,
                entries == map@,
                label@ == entries[i as int].1,
                forall|k: int| 0 <= k < i ==> (#[trigger] codes@[k]).1@ == entries[k].1,
                forall|k: int| 0 <= k < j ==> (#[trigger] entries[k]).1 != label@,
                ty.range() == Some((lo as int, hi as int)),
                spelled_integer(entries[i as int].0) == Some(raw as int),
                lo <= raw <= hi,
                label@.len() > 0,
                entries_fault(entries, ty, 0) == entries_fault(entries, ty, i as nat),
            decreases i - j,
        {
            assert(codes@[j as int].1@ == entries[j as int].1);
            if same_text(codes[j].1.as_str(), label) {
                return Err(join("duplicate label '", label, "'"));
            }
            j = j + 1;
        }
        codes.push((raw, label.to_owned()));
        i = i + 1;
    }
    Ok(codes)
}

/// A validated signal catalog with lookups by id and name.
#[derive(Debug)]
pub struct Catalog {
    model: String,
    catalog_version: u32,
    signals: Vec<Signal>,
    by_id: HashMap<u16, usize>,
    by_name: TextMap<usize>,
}

pub open spec fn signal_models(signals: Seq<Signal>) -> Seq<DefModel> {
    Seq::new(signals.len(), |i: int| signals[i]@)
}

impl View for Catalog {
    type V = CatalogModel;

    closed spec fn view(&self) -> CatalogModel {
        CatalogModel {
            model: self.model@,
            catalog_version: self.catalog_version,
            signals: signal_models(self.signals@),
        }
    }
}

/// Every id of the signals stands in the index, at the signal's place.
#[verifier::opaque]
spec fn ids_indexed(signals: Seq<DefModel>, by_id: Map<u16, usize>) -> bool {
    &&& forall|id: u16| #[trigger]
        by_id.contains_key(id) ==> by_id[id] < signals.len() && signals[by_id[id] as int].id == id
    &&& forall|i: int| 0 <= i < signals.len() ==> by_id.contains_key((#[trigger] signals[i]).id)
}

#[verifier::opaque]
spec fn names_indexed(signals: Seq<DefModel>, by_name: Map<Seq<char>, usize>) -> bool {
    &&& forall|name: Seq<char>| #[trigger]
        by_name.contains_key(name) ==> by_name[name] < signals.len()
            && signals[by_name[name] as int].name == name
    &&& forall|i: int|
        0 <= i < signals.len() ==> by_name.contains_key((#[trigger] signals[i]).name)
}

proof fn lemma_indexed(
    defs: Seq<DefModel>,
    i: int,
    by_id: Map<u16, usize>,
    by_name: Map<Seq<char>, usize>,
)
    requires
        0 <= i < defs.len() <= usize::MAX,
        ids_indexed(defs.take(i), by_id),
        names_indexed(defs.take(i), by_name),
    ensures
        by_id.contains_key(defs[i].id) <==> exists|j: int|
            0 <= j < i && (#[trigger] defs[j]).id == defs[i].id,
        by_name.contains_key(defs[i].name) <==> exists|j: int|
            0 <= j < i && (#[trigger] defs[j]).name == defs[i].name,
        !by_id.contains_key(defs[i].id) ==> ids_indexed(
            defs.take(i + 1),
            by_id.insert(defs[i].id, i as usize),
        ),
        !by_name.contains_key(defs[i].name) ==> names_indexed(
            defs.take(i + 1),
            by_name.insert(defs[i].name, i as usize),
        ),
{
    reveal(ids_indexed);
    reveal(names_indexed);
    let seen = defs.take(i);
    let grown = defs.take(i + 1);
    let id = defs[i].id;
    let name = defs[i].name;
    assert(forall|j: int| 0 <= j < i ==> #[trigger] seen[j] == defs[j]);
    assert(forall|j: int| 0 <= j <= i ==> #[trigger] grown[j] == defs[j]);
    assert(by_id.contains_key(id) ==> seen[by_id[id] as int] == defs[by_id[id] as int]);
    assert(by_name.contains_key(name) ==> seen[by_name[name] as int]
        == defs[by_name[name] as int]);
    assert forall|j: int| 0 <= j < i && (#[trigger] defs[j]).id == id implies by_id.contains_key(
        id,
    ) by {
        assert(seen[j] == defs[j]);
    }
    assert forall|j: int| 0 <= j < i && (#[trigger] defs[j]).name
        == name implies by_name.contains_key(name) by {
        assert(seen[j] == defs[j]);
    }
    if !by_id.contains_key(id) {
        let after = by_id.insert(id, i as usize);
        assert forall|k: u16| #[trigger] after.contains_key(k) implies after[k] < grown.len()
            && grown[after[k] as int].id == k by {
            if k != id {
                assert(by_id.contains_key(k));
                assert(seen[by_id[k] as int] == defs[by_id[k] as int]);
            }
        }
        assert forall|j: int| 0 <= j < grown.len() implies after.contains_key(
            (#[trigger] grown[j]).id,
        ) by {
            if j < i {
                assert(seen[j] == defs[j]);
            }
        }
    }
    if !by_name.contains_key(name) {
        let after = by_name.insert(name, i as usize);
        assert forall|k: Seq<char>| #[trigger] after.contains_key(k) implies after[k] < grown.len()
            && grown[after[k] as int].name == k by {
            if k != name {
                assert(by_name.contains_key(k));
                assert(seen[by_name[k] as int] == defs[by_name[k] as int]);
            }
        }
        assert forall|j: int| 0 <= j < grown.len() implies after.contains_key(
            (#[trigger] grown[j]).name,
        ) by {
            if j < i {
                assert(seen[j] == defs[j]);
            }
        }
    }
}

proof fn lemma_signals_sound(signals: Seq<DefModel>, i: nat)
    requires
        signals_fault(signals, i) is None,
    ensures
        forall|k: int| i <= k < signals.len() ==> (#[trigger] signals[k]).fault() is None,
        forall|j: int, k: int|
            0 <= j < k < signals.len() && i <= k ==> (#[trigger] signals[j]).id != (
            #[trigger] signals[k]).id,
        forall|j: int, k: int|
            0 <= j < k < signals.len() && i <= k ==> (#[trigger] signals[j]).name != (
            #[trigger] signals[k]).name,
    decreases signals.len() - i,
{
    if i < signals.len() {
        lemma_signals_sound(signals, i + 1);
    }
}

/// In a valid catalog each signal is found by its id and by its name, and is itself valid.
pub proof fn law_each_signal_is_found(catalog: CatalogModel, i: int)
    requires
        catalog.fault() is None,
        0 <= i < catalog.signals.len(),
    ensures
        catalog.find_id(catalog.signals[i].id) == Some(catalog.signals[i]),
        catalog.find_name(catalog.signals[i].name) == Some(catalog.signals[i]),
        catalog.signals[i].fault() is None,
{
    lemma_signals_sound(catalog.signals, 0);
    let id = catalog.signals[i].id;
    let name = catalog.signals[i].name;
    assert(catalog.has_id(id));
    assert(catalog.has_name(name));
    let a = choose|j: int|
        0 <= j < catalog.signals.len() && (#[trigger] catalog.signals[j]).id == id;
    let b = choose|j: int|
        0 <= j < catalog.signals.len() && (#[trigger] catalog.signals[j]).name == name;
    assert(a == i && b == i);
}

impl Catalog {
    #[verifier::type_invariant]
    spec fn valid(self) -> bool {
        &&& self@.fault() is None
        &&& ids_indexed(self@.signals, self.by_id@)
        &&& names_indexed(self@.signals, self.by_name@)
    }

    /// Validates a parsed catalog document.
    pub fn new(spec: CatalogSpec) -> (r: Result<Catalog, CatalogError>)
        ensures
            match r {
                Ok(catalog) => spec@.fault() is None && catalog@ == spec@,
                Err(e) => spec@.fault() == Some(e@),
            },
    {
        broadcast use vstd::std_specs::hash::group_hash_axioms;

        let ghost defs = spec@.signals;
        if is_blank(spec.model.as_str()) {
            return Err(CatalogError::EmptyModel);
        }
        let mut signals: Vec<Signal> = Vec::new();
        let mut by_id: HashMap<u16, usize> = HashMap::new();
        let mut by_name: TextMap<usize> = TextMap::new();
        proof {
            reveal(ids_indexed);
            reveal(names_indexed);
        }
        let mut i: usize = 0;
        while i < spec.signals.len()
            invariant
                i <= spec.signals@.len(),
                defs == def_models(spec.signals@),
                signals_fault(defs, 0) == signals_fault(defs, i as nat),
                signal_models(signals@) == defs.take(i as int),
                ids_indexed(defs.take(i as int), by_id@),
                names_indexed(defs.take(i as int), by_name@),
                spec@.signals == defs,
                !blank(spec@.model),
            decreases spec.signals@.len() - i,
        {
            let def: SignalDef = spec.signals[i].clone();
            proof {
                assert(defs[i as int] == def@);
                lemma_indexed(defs, i as int, by_id@, by_name@);
            }
            if by_id.contains_key(&def.id) {
                return Err(CatalogError::DuplicateId(def.id));
            }
            if by_name.get(def.name.as_str()).is_some() {
                return Err(CatalogError::DuplicateName(def.name));
            }
            by_id.insert(def.id, i);
            by_name.insert(def.name.clone(), i);
            let signal: Signal = match Signal::new(def) {
                Ok(signal) => signal,
                Err(e) => {
                    return Err(e);
                },
            };
            let ghost before = signals@;
            signals.push(signal);
            proof {
                assert(defs.take(i + 1) =~= defs.take(i as int).push(defs[i as int]));
                assert(signal_models(signals@) =~= signal_models(before).push(signal@));
            }
            i = i + 1;
        }
        assert(defs.take(i as int) =~= defs);
        Ok(
            Catalog {
                model: spec.model,
                catalog_version: spec.catalog_version,
                signals,
                by_id,
                by_name,
            },
        )
    }

    pub fn model(&self) -> (r: &str)
        ensures
            r@ == self@.model,
    {
        self.model.as_str()
    }

    pub fn catalog_version(&self) -> (r: u32)
        ensures
            r == self@.catalog_version,
    {
        self.catalog_version
    }

    /// The signals, in the order of the document.
    pub fn signals(&self) -> (r: &Vec<Signal>)
        ensures
            signal_models(r@) == self@.signals,
    {
        &self.signals
    }

    pub fn by_id(&self, id: u16) -> (r: Option<&Signal>)
        ensures
            r is Some <==> self@.find_id(id) is Some,
            r matches Some(signal) ==> self@.find_id(id) == Some(signal@),
            self@.fault() is None,
    {
        broadcast use vstd::std_specs::hash::group_hash_axioms;

        proof {
            use_type_invariant(self);
            reveal(ids_indexed);
        }
        match self.by_id.get(&id) {
            Some(i) => {
                proof {
                    law_each_signal_is_found(self@, *i as int);
                }
                Some(&self.signals[*i])
            },
            None => None,
        }
    }

    pub fn by_name(&self, name: &str) -> (r: Option<&Signal>)
        ensures
            r is Some <==> self@.find_name(name@) is Some,
            r matches Some(signal) ==> self@.find_name(name@) == Some(signal@),
            self@.fault() is None,
    {
        proof {
            use_type_invariant(self);
            reveal(names_indexed);
        }
        match self.by_name.get(name) {
            Some(i) => {
                proof {
                    law_each_signal_is_found(self@, *i as int);
                }
                Some(&self.signals[*i])
            },
            None => None,
        }
    }

    /// Rebuilds the catalog document, e.g. to serve it over HTTP.
    pub fn to_spec(&self) -> (r: CatalogSpec)
        ensures
            r@ == self@,
            r@.fault() is None,
    {
        proof {
            use_type_invariant(self);
        }
        let mut signals: Vec<SignalDef> = Vec::new();
        let mut i: usize = 0;
        while i < self.signals.len()
            invariant
                i <= self.signals@.len(),
                signals@.len() == i,
                forall|j: int| 0 <= j < i ==> (#[trigger] signals@[j])@ == self.signals@[j]@,
            decreases self.signals@.len() - i,
        {
            signals.push(self.signals[i].def().clone());
            i = i + 1;
        }
        assert(def_models(signals@) =~= signal_models(self.signals@));
        CatalogSpec {
            model: self.model.clone(),
            catalog_version: self.catalog_version,
            signals,
        }
    }
}

/// Sound enum entries: each key spells a code of the type's range, and no
/// label occurs twice.
pub proof fn lemma_entries_sound(
    entries: Seq<(Seq<char>, Seq<char>)>,
    ty: SignalType,
    i: nat,
)
    requires
        ty.range() is Some,
        entries_fault(entries, ty, i) is None,
    ensures
        forall|k: int|
            i <= k < entries.len() ==> {
                let code = spelled_integer((#[trigger] entries[k]).0);
                &&& code is Some
                &&& ty.holds(code->0)
            },
        forall|j: int, k: int|
            0 <= j < k < entries.len() && i <= k ==> (#[trigger] entries[j]).1 != (
            #[trigger] entries[k]).1,
    decreases entries.len() - i,
{
    if i < entries.len() {
        lemma_entries_sound(entries, ty, i + 1);
    }
}

pub proof fn lemma_label_before(entries: Seq<(Seq<char>, Seq<char>)>, raw: int, n: nat)
    requires
        n <= entries.len(),
    ensures
        match label_before(entries, raw, n) {
            Some(label) => exists|i: int|
                0 <= i < n && (#[trigger] entries[i]).1 == label && spelled_integer(entries[i].0)
                    == Some(raw),
            None => forall|i: int|
                0 <= i < n ==> spelled_integer((#[trigger] entries[i]).0) != Some(raw),
        },
    decreases n,
{
    if n > 0 && spelled_integer(entries[n - 1].0) != Some(raw) {
        lemma_label_before(entries, raw, (n - 1) as nat);
    }
}

/// Whether no later entry spells the code of entry number `i`.
pub open spec fn is_last_spelling(entries: Seq<(Seq<char>, Seq<char>)>, i: int) -> bool {
    forall|j: int|
        i < j < entries.len() ==> spelled_integer((#[trigger] entries[j]).0) != spelled_integer(
            entries[i].0,
        )
}

/// The last entry that spells a code gives its label.
pub proof fn lemma_last_label(entries: Seq<(Seq<char>, Seq<char>)>, i: int, raw: int, n: nat)
    requires
        0 <= i < n <= entries.len(),
        spelled_integer(entries[i].0) == Some(raw),
        is_last_spelling(entries, i),
    ensures
        label_before(entries, raw, n) == Some(entries[i].1),
    decreases n,
{
    if i < n - 1 {
        assert(spelled_integer(entries[n - 1].0) != Some(raw));
        lemma_last_label(entries, i, raw, (n - 1) as nat);
    }
}

pub proof fn lemma_code_before(entries: Seq<(Seq<char>, Seq<char>)>, label: Seq<char>, n: nat)
    requires
        n <= entries.len(),
        forall|j: int, k: int|
            0 <= j < k < entries.len() ==> (#[trigger] entries[j]).1 != (#[trigger] entries[k]).1,
    ensures
        match code_before(entries, label, n) {
            Some(code) => exists|i: int|
                0 <= i < n && (#[trigger] entries[i]).1 == label && spelled_integer(entries[i].0)
                    == Some(code),
            None => true,
        },
        forall|i: int|
            0 <= i < n && (#[trigger] entries[i]).1 == label ==> code_before(entries, label, n)
                == spelled_integer(entries[i].0),
    decreases n,
{
    if n > 0 && entries[n - 1].1 != label {
        lemma_code_before(entries, label, (n - 1) as nat);
    }
}

} // verus!
