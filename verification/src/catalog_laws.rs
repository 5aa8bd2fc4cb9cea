//! What catalogs and signal definitions mean, in terms of their fields.

use crate::catalog::{
    entries_fault, lemma_code_before, lemma_entries_sound, lemma_label_before, lemma_last_label,
    signals_fault, valid_signal_name, CatalogFault, CatalogModel, DefModel, Endian, SignalType,
};
use crate::text::{
    all_digits, decimal, digit_char, digits, digits_value, hex, hex_char, is_space, is_word_char,
    spelled_integer,
};
use vstd::arithmetic::power2::{lemma2_to64, lemma2_to64_rest, pow2};
use vstd::prelude::*;

verus! {

/// White space is the tab, the line feed and the three controls after it, the
/// space, the next-line control, the no-break space and the spaces, separators
/// and the ideographic space beyond the Latin blocks; nothing else.
pub proof fn law_white_space(c: char)
    ensures
        is_space(c) <==> c == '\t' || c == '\n' || c == '\u{b}' || c == '\u{c}' || c == '\r' || c
            == ' ' || c == '\u{85}' || c == '\u{a0}' || c == '\u{1680}' || ('\u{2000}' <= c && c
            <= '\u{200a}') || c == '\u{2028}' || c == '\u{2029}' || c == '\u{202f}' || c
            == '\u{205f}' || c == '\u{3000}',
{
}

/// A number in decimal is the number without its last digit, then that digit;
/// below ten it is one digit; below zero it is a minus sign and the number
/// without its sign.
pub proof fn law_decimal(n: nat)
    ensures
        n < 10 ==> decimal(n as int) == seq![(48 + n) as char],
        n >= 10 ==> decimal(n as int) == decimal((n / 10) as int) + seq![(48 + n % 10) as char],
        n > 0 ==> decimal(-n) == seq!['-'] + decimal(n as int),
{
    assert('0' as nat == 48);
    if n >= 10 {
        assert(digits(n) =~= digits(n / 10) + seq![digit_char(n % 10)]);
    }
}

/// A text spells an integer exactly where it is one or more ASCII digits, with a
/// sign before them or none, and the integer fits 128 bits with a sign.
pub proof fn law_spelled_integers(body: Seq<char>)
    requires
        body.len() > 0,
        forall|i: int| 0 <= i < body.len() ==> '0' <= #[trigger] body[i] && body[i] <= '9',
    ensures
        ({
            let n = digits_value(body) as int;
            &&& spelled_integer(body) == if n <= i128::MAX {
                Some(n)
            } else {
                None
            }
            &&& spelled_integer(seq!['+'] + body) == spelled_integer(body)
            &&& spelled_integer(seq!['-'] + body) == if -n >= i128::MIN {
                Some(-n)
            } else {
                None
            }
        }),
        digits_value(body) == 10 * digits_value(body.drop_last()) + (body.last() as nat - 48),
        digits_value(Seq::empty()) == 0,
{
    assert(all_digits(body));
    assert((seq!['+'] + body).skip(1) =~= body);
    assert((seq!['-'] + body).skip(1) =~= body);
    assert((seq!['+'] + body)[0] == '+');
    assert((seq!['-'] + body)[0] == '-');
}

/// A text with anything but digits after its sign spells nothing, nor does a
/// sign alone.
pub proof fn law_other_texts_spell_nothing(s: Seq<char>, i: int)
    requires
        0 <= i < s.len(),
        !('0' <= s[i] && s[i] <= '9'),
        i > 0 || (s[i] != '-' && s[i] != '+') || s.len() == 1,
    ensures
        spelled_integer(s) is None,
        spelled_integer(Seq::empty()) is None,
{
    if s[0] == '-' || s[0] == '+' {
        if s.len() > 1 {
            assert(s.skip(1)[i - 1] == s[i]);
        }
    } else {
        assert(!crate::text::is_digit(s[i]));
    }
}

/// Four hexadecimal digits, lower case, the most significant first, are one
/// number and no other.
pub proof fn law_hex(n: u16, a: nat, b: nat, c: nat, d: nat)
    requires
        a < 16,
        b < 16,
        c < 16,
        d < 16,
        n == ((a * 16 + b) * 16 + c) * 16 + d,
    ensures
        hex(n) == seq![hex_char(a), hex_char(b), hex_char(c), hex_char(d)],
        hex_char(a) == seq![
            '0', '1', '2', '3', '4', '5', '6', '7', '8', '9', 'a', 'b', 'c', 'd', 'e', 'f',
        ][a as int],
{
    assert(n / 4096 == a && n / 256 % 16 == b && n / 16 % 16 == c && n % 16 == d);
}

/// A type's width in bytes, and what its name says of it.
pub proof fn law_widths(ty: SignalType)
    ensures
        ty.width() == match ty {
            SignalType::Bool => 1int,
            SignalType::U8 => 1,
            SignalType::I8 => 1,
            SignalType::U16 => 2,
            SignalType::I16 => 2,
            SignalType::U32 => 4,
            SignalType::I32 => 4,
            SignalType::U64 => 8,
            SignalType::I64 => 8,
            SignalType::F32 => 4,
            SignalType::F64 => 8,
        },
        ty.title() == match ty {
            SignalType::Bool => "Bool"@,
            SignalType::U8 => "U8"@,
            SignalType::I8 => "I8"@,
            SignalType::U16 => "U16"@,
            SignalType::I16 => "I16"@,
            SignalType::U32 => "U32"@,
            SignalType::I32 => "I32"@,
            SignalType::U64 => "U64"@,
            SignalType::I64 => "I64"@,
            SignalType::F32 => "F32"@,
            SignalType::F64 => "F64"@,
        },
{
}

/// An unsigned type holds the integers of as many bits as it has, a signed one
/// half of them on each side of zero; bools and floats hold no integers.
pub proof fn law_ranges(ty: SignalType)
    ensures
        ({
            let all = pow2((8 * ty.width()) as nat) as int;
            match ty {
                SignalType::U8 | SignalType::U16 | SignalType::U32 | SignalType::U64 => ty.range()
                    == Some((0int, all - 1)),
                SignalType::I8 | SignalType::I16 | SignalType::I32 | SignalType::I64 => ty.range()
                    == Some((-(all / 2), all / 2 - 1)),
                SignalType::Bool | SignalType::F32 | SignalType::F64 => ty.range() is None,
            }
        }),
        forall|i: int| #[trigger]
            ty.holds(i) <==> (ty.range() matches Some((lo, hi)) && lo <= i && i <= hi),
{
    lemma2_to64();
    lemma2_to64_rest();
}

/// A signal decodes to a bool where its type is one, else to a label where it
/// has an enum, else to a number; its bytes are most significant first unless it
/// says otherwise.
pub proof fn law_kinds(def: DefModel)
    ensures
        def.kind() is Bool <==> def.ty is Bool,
        def.kind() is Enum <==> !(def.ty is Bool) && def.enum_map is Some,
        def.kind() is Num <==> !(def.ty is Bool) && def.enum_map is None,
        def.byte_order() is Little <==> def.endian == Some(Endian::Little),
{
}

/// Whether a text is a name of a signal: a lower-case letter, then up to 63
/// lower-case letters, digits and underscores.
pub open spec fn is_signal_name(name: Seq<char>) -> bool {
    &&& 1 <= name.len() <= 64
    &&& 'a' <= name[0] && name[0] <= 'z'
    &&& forall|i: int|
        0 <= i < name.len() ==> {
            let c = #[trigger] name[i];
            ('a' <= c && c <= 'z') || ('0' <= c && c <= '9') || c == '_'
        }
}

/// Whether an entry of an enum is in order on its own: its key spells a code of
/// the type, and its label is not empty.
pub open spec fn good_entry(entry: (Seq<char>, Seq<char>), ty: SignalType) -> bool {
    &&& spelled_integer(entry.0) matches Some(raw) && (ty.range() matches Some((lo, hi)) && lo
        <= raw && raw <= hi)
    &&& entry.1.len() > 0
}

proof fn lemma_entries(entries: Seq<(Seq<char>, Seq<char>)>, ty: SignalType, i: nat)
    requires
        ty.range() is Some,
        i <= entries.len(),
    ensures
        entries_fault(entries, ty, i) is None <==> (forall|k: int|
            i <= k < entries.len() ==> good_entry(#[trigger] entries[k], ty)) && (forall|
            j: int,
            k: int,
        |
            0 <= j < k < entries.len() && i <= k ==> (#[trigger] entries[j]).1 != (
            #[trigger] entries[k]).1),
    decreases entries.len() - i,
{
    if i < entries.len() {
        lemma_entries(entries, ty, i + 1);
        if entries_fault(entries, ty, i) is None {
            assert(good_entry(entries[i as int], ty));
        }
        if good_entry(entries[i as int], ty) && entries_fault(entries, ty, i) is Some
            && entries_fault(entries, ty, i + 1) is None {
            let j = choose|j: int|
                0 <= j < i && (#[trigger] entries[j]).1 == entries[i as int].1;
            assert(entries[j].1 == entries[i as int].1);
        }
    }
}

/// A definition is valid exactly where its name is one, a type of several bytes
/// states their order, its scale is finite and not zero, its offset finite, and
/// its enum, if it has one, is of an integer type and has entries: each with a
/// code of the type and a label, no label twice.
pub proof fn law_valid_definitions(def: DefModel)
    ensures
        def.fault() is None <==> {
            &&& is_signal_name(def.name)
            &&& def.endian is None ==> def.ty is Bool || def.ty is U8 || def.ty is I8
            &&& def.scale.finite() && !def.scale.zero()
            &&& def.offset.finite()
            &&& def.enum_map matches Some(entries) ==> {
                &&& !(def.ty is Bool || def.ty is F32 || def.ty is F64)
                &&& entries.len() > 0
                &&& forall|k: int|
                    0 <= k < entries.len() ==> good_entry(#[trigger] entries[k], def.ty)
                &&& forall|j: int, k: int|
                    0 <= j < k < entries.len() ==> (#[trigger] entries[j]).1 != (
                    #[trigger] entries[k]).1
            }
        },
{
    lemma_names(def.name);
    if let Some(entries) = def.enum_map {
        if def.ty.range() is Some {
            lemma_entries(entries, def.ty, 0);
        }
    }
}

proof fn lemma_names(name: Seq<char>)
    ensures
        valid_signal_name(name) <==> is_signal_name(name),
{
    assert(forall|c: char| #[trigger]
        is_word_char(c) <==> ('a' <= c && c <= 'z') || ('0' <= c && c <= '9') || c == '_');
    if is_signal_name(name) {
        assert forall|i: int| 0 <= i < name.len() implies is_word_char(#[trigger] name[i]) by {}
    }
}

/// What a definition is rejected for: its name first, then the missing order of
/// its bytes, then its scale and offset, and its enum last.
pub proof fn law_rejected_definitions(def: DefModel)
    ensures
        ({
            let name = is_signal_name(def.name);
            let order = def.endian is Some || def.ty is Bool || def.ty is U8 || def.ty is I8;
            let factors = def.scale.finite() && !def.scale.zero() && def.offset.finite();
            let said = |reason: Seq<char>|
                def.fault() == Some(CatalogFault::InvalidEnum { signal: def.name, reason });
            &&& !name ==> def.fault() == Some(CatalogFault::InvalidName(def.name))
            &&& name && !order ==> def.fault() == Some(CatalogFault::MissingEndian(def.name))
            &&& name && order && !factors ==> def.fault() == Some(
                CatalogFault::InvalidScaleOffset(def.name),
            )
            &&& name && order && factors ==> (def.enum_map matches Some(entries) ==> {
                &&& def.ty.range() is None ==> said(
                    "enum requires an integer type, got "@ + def.ty.title(),
                )
                &&& def.ty.range() is Some && entries.len() == 0 ==> said("enum map is empty"@)
                &&& def.ty.range() is Some && entries.len() > 0 ==> match entries_fault(
                    entries,
                    def.ty,
                    0,
                ) {
                    Some(reason) => said(reason),
                    None => def.fault() is None,
                }
            })
        }),
{
    lemma_names(def.name);
}

/// What an enum is rejected for: the first entry that is not in order, or that
/// repeats a label of an earlier one.
pub proof fn law_rejected_entries(
    entries: Seq<(Seq<char>, Seq<char>)>,
    ty: SignalType,
    i: int,
)
    requires
        ty.range() is Some,
        0 <= i < entries.len(),
        forall|k: int| 0 <= k < i ==> good_entry(#[trigger] entries[k], ty),
        forall|j: int, k: int|
            0 <= j < k < i ==> (#[trigger] entries[j]).1 != (#[trigger] entries[k]).1,
    ensures
        ({
            let (key, label) = entries[i];
            let (lo, hi) = ty.range()->0;
            &&& spelled_integer(key) is None ==> entries_fault(entries, ty, 0) == Some(
                "key '"@ + key + "' is not an integer"@,
            )
            &&& spelled_integer(key) matches Some(raw) ==> {
                &&& raw < lo || raw > hi ==> entries_fault(entries, ty, 0) == Some(
                    "key "@ + decimal(raw) + " is out of range for "@ + ty.title(),
                )
                &&& lo <= raw && raw <= hi && label.len() == 0 ==> entries_fault(entries, ty, 0)
                    == Some("key "@ + decimal(raw) + " has an empty label"@)
                &&& lo <= raw && raw <= hi && label.len() > 0 && (exists|j: int|
                    0 <= j < i && (#[trigger] entries[j]).1 == label) ==> entries_fault(
                    entries,
                    ty,
                    0,
                ) == Some("duplicate label '"@ + label + "'"@)
            }
        }),
{
    lemma_good_entries_are_passed(entries, ty, i as nat);
}

proof fn lemma_good_entries_are_passed(
    entries: Seq<(Seq<char>, Seq<char>)>,
    ty: SignalType,
    i: nat,
)
    requires
        ty.range() is Some,
        i <= entries.len(),
        forall|k: int| 0 <= k < i ==> good_entry(#[trigger] entries[k], ty),
        forall|j: int, k: int|
            0 <= j < k < i ==> (#[trigger] entries[j]).1 != (#[trigger] entries[k]).1,
    ensures
        entries_fault(entries, ty, 0) == entries_fault(entries, ty, i),
    decreases i,
{
    if i > 0 {
        lemma_good_entries_are_passed(entries, ty, (i - 1) as nat);
        assert(good_entry(entries[i - 1], ty));
    }
}

/// A catalog is valid exactly where its model is not blank, no two of its
/// signals share an id or a name, and each of them is valid.
pub proof fn law_valid_catalogs(catalog: CatalogModel)
    ensures
        catalog.fault() is None <==> {
            &&& exists|i: int| 0 <= i < catalog.model.len() && !is_space(#[trigger] catalog.model[i])
            &&& forall|j: int, k: int|
                0 <= j < k < catalog.signals.len() ==> (#[trigger] catalog.signals[j]).id != (
                #[trigger] catalog.signals[k]).id && catalog.signals[j].name
                    != catalog.signals[k].name
            &&& forall|k: int|
                0 <= k < catalog.signals.len() ==> (#[trigger] catalog.signals[k]).fault() is None
        },
{
    lemma_signals(catalog.signals, 0);
}

proof fn lemma_signals(signals: Seq<DefModel>, i: nat)
    requires
        i <= signals.len(),
    ensures
        signals_fault(signals, i) is None <==> (forall|j: int, k: int|
            0 <= j < k < signals.len() && i <= k ==> (#[trigger] signals[j]).id != (
            #[trigger] signals[k]).id && signals[j].name != signals[k].name) && (forall|k: int|
            i <= k < signals.len() ==> (#[trigger] signals[k]).fault() is None),
    decreases signals.len() - i,
{
    if i < signals.len() {
        lemma_signals(signals, i + 1);
    }
}

/// What a catalog is rejected for: a blank model, or else its first signal that
/// repeats an id, that repeats a name, or that is not valid, in this order.
pub proof fn law_rejected_catalogs(catalog: CatalogModel, i: int)
    requires
        0 <= i < catalog.signals.len(),
        forall|j: int, k: int|
            0 <= j < k < i ==> (#[trigger] catalog.signals[j]).id != (
            #[trigger] catalog.signals[k]).id && catalog.signals[j].name
                != catalog.signals[k].name,
        forall|k: int| 0 <= k < i ==> (#[trigger] catalog.signals[k]).fault() is None,
    ensures
        ({
            let def = catalog.signals[i];
            let blank = forall|k: int|
                0 <= k < catalog.model.len() ==> is_space(#[trigger] catalog.model[k]);
            let id = exists|j: int| 0 <= j < i && (#[trigger] catalog.signals[j]).id == def.id;
            let name = exists|j: int|
                0 <= j < i && (#[trigger] catalog.signals[j]).name == def.name;
            &&& blank ==> catalog.fault() == Some(CatalogFault::EmptyModel)
            &&& !blank && id ==> catalog.fault() == Some(CatalogFault::DuplicateId(def.id))
            &&& !blank && !id && name ==> catalog.fault() == Some(
                CatalogFault::DuplicateName(def.name),
            )
            &&& !blank && !id && !name && def.fault() is Some ==> catalog.fault() == def.fault()
        }),
{
    lemma_good_signals_are_passed(catalog.signals, i as nat);
}

proof fn lemma_good_signals_are_passed(signals: Seq<DefModel>, i: nat)
    requires
        i <= signals.len(),
        forall|j: int, k: int|
            0 <= j < k < i ==> (#[trigger] signals[j]).id != (#[trigger] signals[k]).id
                && signals[j].name != signals[k].name,
        forall|k: int| 0 <= k < i ==> (#[trigger] signals[k]).fault() is None,
    ensures
        signals_fault(signals, 0) == signals_fault(signals, i),
    decreases i,
{
    if i > 0 {
        lemma_good_signals_are_passed(signals, (i - 1) as nat);
    }
}

/// A fault of a catalog in words.
pub proof fn law_catalog_faults_in_words(fault: CatalogFault)
    ensures
        fault.words() == match fault {
            CatalogFault::EmptyModel => "catalog model must not be empty"@,
            CatalogFault::DuplicateId(id) => "duplicate signal id "@ + decimal(id as int),
            CatalogFault::DuplicateName(name) => "duplicate signal name '"@ + name + "'"@,
            CatalogFault::InvalidName(name) => "invalid signal name '"@ + name
                + "' (must match ^[a-z][a-z0-9_]{0,63}$)"@,
            CatalogFault::MissingEndian(name) => "signal '"@ + name
                + "' is multi-byte and must declare 'endian'"@,
            CatalogFault::InvalidScaleOffset(name) => "signal '"@ + name
                + "' has a non-finite or zero scale, or a non-finite offset"@,
            CatalogFault::InvalidEnum { signal, reason } => "signal '"@ + signal
                + "' has an invalid enum: "@ + reason,
        },
{
}

/// In a valid catalog a signal is found by an id exactly where it has that id,
/// and by a name exactly where it has that name; where none has, none is found.
pub proof fn law_lookups(catalog: CatalogModel, id: u16, name: Seq<char>, i: int)
    requires
        catalog.fault() is None,
        0 <= i < catalog.signals.len(),
    ensures
        catalog.find_id(id) == Some(catalog.signals[i]) <==> catalog.signals[i].id == id,
        catalog.find_name(name) == Some(catalog.signals[i]) <==> catalog.signals[i].name == name,
        catalog.find_id(id) is None <==> (forall|k: int|
            0 <= k < catalog.signals.len() ==> (#[trigger] catalog.signals[k]).id != id),
        catalog.find_name(name) is None <==> (forall|k: int|
            0 <= k < catalog.signals.len() ==> (#[trigger] catalog.signals[k]).name != name),
{
    crate::catalog::law_each_signal_is_found(catalog, i);
    if catalog.has_id(id) {
        let k = choose|k: int|
            0 <= k < catalog.signals.len() && (#[trigger] catalog.signals[k]).id == id;
        crate::catalog::law_each_signal_is_found(catalog, k);
    }
    if catalog.has_name(name) {
        let k = choose|k: int|
            0 <= k < catalog.signals.len() && (#[trigger] catalog.signals[k]).name == name;
        crate::catalog::law_each_signal_is_found(catalog, k);
    }
}

/// Without signals nothing is found.
pub proof fn law_empty_lookups(catalog: CatalogModel, id: u16, name: Seq<char>)
    requires
        catalog.signals.len() == 0,
    ensures
        catalog.find_id(id) is None,
        catalog.find_name(name) is None,
{
}

/// Labels and codes of a valid enum: a code has the label of the last entry that
/// spells it, and none where no entry does; a label has the code that its entry
/// spells, and none where no entry has it.
pub proof fn law_labels_and_codes(def: DefModel, raw: int, label: Seq<char>)
    requires
        def.fault() is None,
        def.enum_map is Some,
    ensures
        ({
            let entries = def.enum_map->0;
            &&& forall|i: int|
                0 <= i < entries.len() && spelled_integer((#[trigger] entries[i]).0) == Some(raw)
                    && (forall|j: int|
                    i < j < entries.len() ==> spelled_integer((#[trigger] entries[j]).0) != Some(
                        raw,
                    )) ==> def.label_of(raw) == Some(entries[i].1)
            &&& def.label_of(raw) is None <==> (forall|i: int|
                0 <= i < entries.len() ==> spelled_integer((#[trigger] entries[i]).0) != Some(raw))
            &&& forall|i: int|
                0 <= i < entries.len() && (#[trigger] entries[i]).1 == label ==> def.code_of(label)
                    == spelled_integer(entries[i].0) && def.code_of(label) is Some
            &&& def.code_of(label) is None <==> (forall|i: int|
                0 <= i < entries.len() ==> (#[trigger] entries[i]).1 != label)
        }),
{
    let entries = def.enum_map->0;
    assert(def.entries() == entries);
    lemma_entries_sound(entries, def.ty, 0);
    lemma_label_before(entries, raw, entries.len());
    lemma_code_before(entries, label, entries.len());
    assert forall|i: int|
        0 <= i < entries.len() && spelled_integer((#[trigger] entries[i]).0) == Some(raw) && (
        forall|j: int|
            i < j < entries.len() ==> spelled_integer((#[trigger] entries[j]).0) != Some(
                raw,
            )) implies def.label_of(raw) == Some(entries[i].1) by {
        lemma_last_label(entries, i, raw, entries.len());
    }
}

/// A signal without an enum has neither labels nor codes.
pub proof fn law_no_labels_without_an_enum(def: DefModel, raw: int, label: Seq<char>)
    requires
        def.enum_map is None,
    ensures
        def.label_of(raw) is None,
        def.code_of(label) is None,
{
}

/// Every type stands once among all of them.
pub proof fn law_all_types(ty: SignalType)
    ensures
        exists|i: int|
            0 <= i < 11 && #[trigger] SignalType::ALL[i] == ty && forall|j: int|
                0 <= j < 11 && j != i ==> #[trigger] SignalType::ALL[j] != ty,
{
    let all = SignalType::ALL;
    assert(all[0] is Bool && all[1] is U8 && all[2] is I8 && all[3] is U16);
    assert(all[4] is I16 && all[5] is U32 && all[6] is I32 && all[7] is U64);
    assert(all[8] is I64 && all[9] is F32 && all[10] is F64);
    let i: int = match ty {
        SignalType::Bool => 0,
        SignalType::U8 => 1,
        SignalType::I8 => 2,
        SignalType::U16 => 3,
        SignalType::I16 => 4,
        SignalType::U32 => 5,
        SignalType::I32 => 6,
        SignalType::U64 => 7,
        SignalType::I64 => 8,
        SignalType::F32 => 9,
        SignalType::F64 => 10,
    };
    assert(all[i] == ty);
}

} // verus!
