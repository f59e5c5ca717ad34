//! Fields of a stream's schema, and bringing a record's values to the types of its fields.

use crate::dict::Dict;
use crate::json::{Json, JsonValue, Number, Object};
use crate::text::{
    decimal, i64_text, law_only_digits_are_read, law_written_integers_are_read, parse_i64,
    parse_u64, same_text, u64_text,
};
use vstd::prelude::*;

verus! {

/// The metadata key that marks a field for casting.
pub const CAST_KEY: &'static str = "zo_cast";

/// The type of a field. `Other` is any type to which values are not cast, by the text that it
/// prints as.
#[derive(Debug, PartialEq)]
pub enum DataType {
    Utf8,
    LargeUtf8,
    Int64,
    Int32,
    Int16,
    Int8,
    UInt64,
    UInt32,
    UInt16,
    UInt8,
    Float64,
    Float32,
    Float16,
    Boolean,
    Other(String),
}

/// A field of a schema.
#[derive(Debug, PartialEq)]
pub struct Field {
    name: String,
    data_type: DataType,
    nullable: bool,
    metadata: Dict<String>,
}

/// What kind of value a type asks for.
#[derive(Clone, Copy, PartialEq, Eq, Debug, Structural)]
pub enum TypeClass {
    Text,
    Signed,
    Unsigned,
    Float,
    Boolean,
    Other,
}

/// What a `Field` says.
pub struct FieldView {
    pub name: Seq<char>,
    pub class: TypeClass,
    pub type_text: Seq<char>,
    pub nullable: bool,
    pub metadata: Map<Seq<char>, String>,
}

impl DataType {
    /// What kind of value the type asks for.
    pub open spec fn class(self) -> TypeClass {
        match self {
            DataType::Utf8 | DataType::LargeUtf8 => TypeClass::Text,
            DataType::Int64 | DataType::Int32 | DataType::Int16 | DataType::Int8 => TypeClass::Signed,
            DataType::UInt64
            | DataType::UInt32
            | DataType::UInt16
            | DataType::UInt8 => TypeClass::Unsigned,
            DataType::Float64 | DataType::Float32 | DataType::Float16 => TypeClass::Float,
            DataType::Boolean => TypeClass::Boolean,
            DataType::Other(_) => TypeClass::Other,
        }
    }

    /// The text that the type prints as.
    pub open spec fn text(self) -> Seq<char> {
        match self {
            DataType::Utf8 => "Utf8"@,
            DataType::LargeUtf8 => "LargeUtf8"@,
            DataType::Int64 => "Int64"@,
            DataType::Int32 => "Int32"@,
            DataType::Int16 => "Int16"@,
            DataType::Int8 => "Int8"@,
            DataType::UInt64 => "UInt64"@,
            DataType::UInt32 => "UInt32"@,
            DataType::UInt16 => "UInt16"@,
            DataType::UInt8 => "UInt8"@,
            DataType::Float64 => "Float64"@,
            DataType::Float32 => "Float32"@,
            DataType::Float16 => "Float16"@,
            DataType::Boolean => "Boolean"@,
            DataType::Other(text) => text@,
        }
    }

    /// What kind of value the type asks for.
    pub fn type_class(&self) -> (result: TypeClass)
        ensures
            result == self.class(),
    {
        match self {
            DataType::Utf8 | DataType::LargeUtf8 => TypeClass::Text,
            DataType::Int64 | DataType::Int32 | DataType::Int16 | DataType::Int8 => TypeClass::Signed,
            DataType::UInt64
            | DataType::UInt32
            | DataType::UInt16
            | DataType::UInt8 => TypeClass::Unsigned,
            DataType::Float64 | DataType::Float32 | DataType::Float16 => TypeClass::Float,
            DataType::Boolean => TypeClass::Boolean,
            DataType::Other(_) => TypeClass::Other,
        }
    }

    /// The text that the type prints as.
    pub fn type_text(&self) -> (result: &str)
        ensures
            result@ == self.text(),
    {
        match self {
            DataType::Utf8 => "Utf8",
            DataType::LargeUtf8 => "LargeUtf8",
            DataType::Int64 => "Int64",
            DataType::Int32 => "Int32",
            DataType::Int16 => "Int16",
            DataType::Int8 => "Int8",
            DataType::UInt64 => "UInt64",
            DataType::UInt32 => "UInt32",
            DataType::UInt16 => "UInt16",
            DataType::UInt8 => "UInt8",
            DataType::Float64 => "Float64",
            DataType::Float32 => "Float32",
            DataType::Float16 => "Float16",
            DataType::Boolean => "Boolean",
            DataType::Other(text) => text.as_str(),
        }
    }
}

impl View for Field {
    type V = FieldView;

    closed spec fn view(&self) -> FieldView {
        FieldView {
            name: self.name@,
            class: self.data_type.class(),
            type_text: self.data_type.text(),
            nullable: self.nullable,
            metadata: self.metadata@,
        }
    }
}

impl Field {
    /// A field without metadata.
    pub fn new(name: &str, data_type: DataType, nullable: bool) -> (result: Field)
        ensures
            result@ == (FieldView {
                name: name@,
                class: data_type.class(),
                type_text: data_type.text(),
                nullable,
                metadata: Map::empty(),
            }),
    {
        Field { name: name.to_string(), data_type, nullable, metadata: Dict::new() }
    }

    /// The field with one metadata entry more.
    pub fn with_metadata(self, key: String, value: String) -> (result: Field)
        ensures
            result@ == (FieldView { metadata: self@.metadata.insert(key@, value), ..self@ }),
    {
        let mut metadata = self.metadata;
        metadata.insert(key, value);
        Field { name: self.name, data_type: self.data_type, nullable: self.nullable, metadata }
    }

    /// The name of the field.
    pub fn name(&self) -> (result: &str)
        ensures
            result@ == self@.name,
    {
        self.name.as_str()
    }

    /// The type of the field.
    pub fn data_type(&self) -> (result: &DataType)
        ensures
            result.class() == self@.class,
            result.text() == self@.type_text,
    {
        &self.data_type
    }

    /// Whether the field is marked for casting.
    pub fn is_marked(&self) -> (result: bool)
        ensures
            result == marked(self@),
    {
        self.metadata.contains_key(CAST_KEY)
    }
}

/// The field is marked for casting.
pub open spec fn marked(field: FieldView) -> bool {
    field.metadata.contains_key(CAST_KEY@)
}

/// What a list of fields says.
pub open spec fn fields_view(fields: Seq<Field>) -> Seq<FieldView> {
    fields.map_values(|field: Field| field@)
}

/// What a text is as a double: no number, a number without a JSON form (infinite, or not a
/// number), or one with the bits of its double.
#[derive(Clone, Copy, PartialEq, Eq, Debug, Structural)]
pub enum FloatReading {
    NotANumber,
    NotFinite,
    Finite(u64),
}

/// What `serde_json::Number::from_f64` makes of the double that a text writes.
pub uninterp spec fn float_reading(text: Seq<char>) -> FloatReading;

/// Calls `serde_json::Number::from_f64` on the double that `str::parse` reads in a text.
/// Believed of it: what comes out depends on the text alone. Which texts write which doubles is
/// left unsaid.
#[verifier::external_body]
fn parse_float(text: &str) -> (result: FloatReading)
    ensures
        result == float_reading(text@),
{
    match text.parse().map(serde_json::Number::from_f64) {
        Ok(Some(n)) => FloatReading::Finite(n.as_f64().unwrap_or_default().to_bits()),
        Ok(None) => FloatReading::NotFinite,
        Err(_) => FloatReading::NotANumber,
    }
}

/// The bits of the doubles for `true` and `false`.
pub const ONE_BITS: u64 = 0x3ff0_0000_0000_0000;

pub const ZERO_BITS: u64 = 0;

/// What happens to a value that is to have a type: it stays, it is replaced, it is refused, or
/// it is a number without a JSON form.
pub enum Cast {
    Keep,
    Become(Json),
    Refuse,
    NotFinite,
}

/// One for true, zero for false.
pub open spec fn bit(b: bool) -> u64 {
    if b {
        1
    } else {
        0
    }
}

/// What happens to `value` where a type of a class is asked for. `text` is the value as text,
/// `reading` what a string is as a double.
pub open spec fn cast_value(
    class: TypeClass,
    value: Json,
    text: Seq<char>,
    reading: FloatReading,
) -> Cast {
    match (class, value) {
        (_, Json::Null) => Cast::Keep,
        (TypeClass::Text, Json::String(_)) => Cast::Keep,
        (TypeClass::Text, _) => Cast::Become(Json::String(text)),
        (TypeClass::Signed, Json::Number(_)) => Cast::Keep,
        (TypeClass::Signed, Json::String(s)) => match i64_text(s) {
            Some(n) => Cast::Become(Json::Number(Number::of_i64(n))),
            None => Cast::Refuse,
        },
        (TypeClass::Signed, Json::Bool(b)) => Cast::Become(Json::Number(Number::PosInt(bit(b)))),
        (TypeClass::Unsigned, Json::Number(_)) => Cast::Keep,
        (TypeClass::Unsigned, Json::String(s)) => match u64_text(s) {
            Some(n) => Cast::Become(Json::Number(Number::PosInt(n))),
            None => Cast::Refuse,
        },
        (TypeClass::Unsigned, Json::Bool(b)) => Cast::Become(Json::Number(Number::PosInt(bit(b)))),
        (TypeClass::Float, Json::Number(_)) => Cast::Keep,
        (TypeClass::Float, Json::String(s)) => match reading {
            FloatReading::Finite(bits) => Cast::Become(Json::Number(Number::Float(bits))),
            FloatReading::NotFinite => Cast::NotFinite,
            FloatReading::NotANumber => Cast::Refuse,
        },
        (TypeClass::Float, Json::Bool(b)) => Cast::Become(
            Json::Number(
                Number::Float(
                    if b {
                        ONE_BITS
                    } else {
                        ZERO_BITS
                    },
                ),
            ),
        ),
        (TypeClass::Boolean, Json::Bool(_)) => Cast::Keep,
        (TypeClass::Boolean, Json::Number(n)) => Cast::Become(Json::Bool(n.positive())),
        (TypeClass::Boolean, Json::String(s)) => if s == "true"@ {
            Cast::Become(Json::Bool(true))
        } else if s == "false"@ {
            Cast::Become(Json::Bool(false))
        } else {
            Cast::Refuse
        },
        _ => Cast::Refuse,
    }
}

/// What a text is as a double where the value is a string.
pub open spec fn reading_of(value: Json) -> FloatReading {
    match value {
        Json::String(s) => float_reading(s),
        _ => FloatReading::NotANumber,
    }
}

/// The value is turned into text where a type of the class is asked for.
pub open spec fn wants_text(class: TypeClass, value: Json) -> bool {
    class == TypeClass::Text && !(value is Null) && !(value is String)
}

/// What is said of a field whose value was refused.
pub open spec fn cast_message(field: FieldView) -> Seq<char> {
    "Failed to cast "@ + field.name + " to type "@ + field.type_text + " "@
}

/// The fields to which the records of a batch are cast, out of those whose types changed: all of
/// them, or the marked ones where the schema itself has changed.
pub open spec fn fields_to_cast(
    types_delta: Option<Seq<FieldView>>,
    is_schema_changed: bool,
) -> Option<Seq<FieldView>> {
    match types_delta {
        Some(delta) => Some(
            if is_schema_changed {
                delta.filter(|field: FieldView| marked(field))
            } else {
                delta
            },
        ),
        None => None,
    }
}

/// What an optional list of fields says.
pub open spec fn delta_view(delta: Option<Vec<Field>>) -> Option<Seq<FieldView>> {
    match delta {
        Some(fields) => Some(fields_view(fields@)),
        None => None,
    }
}

/// The fields to which the records of a batch are cast, out of those whose types changed.
pub fn cast_delta(types_delta: Option<Vec<Field>>, is_schema_changed: bool) -> (result: Option<
    Vec<Field>,
>)
    ensures
        delta_view(result) == fields_to_cast(delta_view(types_delta), is_schema_changed),
{
    let delta = match types_delta {
        Some(delta) => delta,
        None => {
            return None;
        },
    };
    if !is_schema_changed {
        return Some(delta);
    }
    let ghost all = fields_view(delta@);
    let ghost keep = |field: FieldView| marked(field);
    let mut kept: Vec<Field> = Vec::new();
    reveal(Seq::filter);
    assert(fields_view(kept@) =~= all.take(0).filter(keep));
    for field in iter: delta
        invariant
            iter.seq() == delta@,
            all == fields_view(delta@),
            keep == (|field: FieldView| marked(field)),
            fields_view(kept@) == all.take(iter.index() as int).filter(keep),
    {
        let ghost at = iter.index() as int;
        let ghost before = kept@;
        proof {
            reveal(Seq::filter);
            assert(all.take(at + 1).drop_last() =~= all.take(at));
            assert(all.take(at + 1).last() == field@);
        }
        if field.is_marked() {
            kept.push(field);
            assert(fields_view(kept@) =~= fields_view(before).push(field@));
        }
    }
    assert(all.take(all.len() as int) =~= all);
    Some(kept)
}

/// How far the casting of a record has come: the record, what was said of refused values, and
/// whether it came upon a number without a JSON form, where it stops.
pub struct CastRun {
    pub record: Map<Seq<char>, Json>,
    pub message: Seq<char>,
    pub finite: bool,
}

/// The casting after one more field; `text` is the field's value as text.
pub open spec fn cast_field(run: CastRun, field: FieldView, text: Seq<char>) -> CastRun {
    if run.finite && run.record.contains_key(field.name) {
        let value = run.record[field.name];
        match cast_value(field.class, value, text, reading_of(value)) {
            Cast::Keep => run,
            Cast::Become(new) => CastRun { record: run.record.insert(field.name, new), ..run },
            Cast::Refuse => CastRun { message: run.message + cast_message(field), ..run },
            Cast::NotFinite => CastRun { finite: false, ..run },
        }
    } else {
        run
    }
}

/// The casting after some fields; `texts` holds for each field its value as text.
pub open spec fn cast_run(run: CastRun, delta: Seq<FieldView>, texts: Seq<Seq<char>>) -> CastRun
    decreases delta.len(),
{
    if delta.len() == 0 {
        run
    } else {
        cast_field(
            cast_run(run, delta.drop_last(), texts.drop_last()),
            delta.last(),
            texts.last(),
        )
    }
}

/// A casting that has not begun.
pub open spec fn cast_start(record: Map<Seq<char>, Json>) -> CastRun {
    CastRun { record, message: Seq::empty(), finite: true }
}

/// `text` is what the rendering function may give for a value.
pub open spec fn renders<F: Fn(&JsonValue) -> String>(render: F, value: Json, text: Seq<char>) -> bool {
    exists|x: &JsonValue, s: String| x@ == value && s@ == text && #[trigger] render.ensures((x,), s)
}

/// Each text is what the rendering function may give for the value that its field meets.
pub open spec fn rendered<F: Fn(&JsonValue) -> String>(
    render: F,
    run: CastRun,
    delta: Seq<FieldView>,
    texts: Seq<Seq<char>>,
) -> bool
    decreases delta.len(),
{
    &&& texts.len() == delta.len()
    &&& delta.len() > 0 ==> {
        let before = cast_run(run, delta.drop_last(), texts.drop_last());
        let field = delta.last();
        &&& rendered(render, run, delta.drop_last(), texts.drop_last())
        &&& before.finite && before.record.contains_key(field.name) && wants_text(
            field.class,
            before.record[field.name],
        ) ==> renders(render, before.record[field.name], texts.last())
    }
}

/// What becomes of a value.
#[derive(Debug, PartialEq)]
pub enum Casting {
    Keep,
    Become(JsonValue),
    Refuse,
}

impl Casting {
    /// What becomes of a value, as `cast_value` says it.
    pub open spec fn cast(self) -> Cast {
        match self {
            Casting::Keep => Cast::Keep,
            Casting::Become(value) => Cast::Become(value@),
            Casting::Refuse => Cast::Refuse,
        }
    }
}

fn cast_number(n: Number) -> (result: Casting)
    ensures
        result.cast() == Cast::Become(Json::Number(n)),
{
    Casting::Become(JsonValue::Number(n))
}

/// What becomes of a value where a type of a class is asked for. `text` is the value as text and
/// `reading` what a string is as a double: for a string that is to be a double, no number
/// without a JSON form.
pub fn cast_json(
    class: TypeClass,
    value: &JsonValue,
    text: String,
    reading: FloatReading,
) -> (result: Casting)
    requires
        !(cast_value(class, value@, text@, reading) is NotFinite),
    ensures
        result.cast() == cast_value(class, value@, text@, reading),
{
    match (class, value) {
        (_, JsonValue::Null) => Casting::Keep,
        (TypeClass::Text, JsonValue::String(_)) => Casting::Keep,
        (TypeClass::Text, _) => Casting::Become(JsonValue::String(text)),
        (TypeClass::Signed, JsonValue::Number(_)) => Casting::Keep,
        (TypeClass::Signed, JsonValue::String(s)) => match parse_i64(s.as_str()) {
            Some(n) => cast_number(Number::from_i64(n)),
            None => Casting::Refuse,
        },
        (TypeClass::Signed, JsonValue::Bool(b)) => cast_number(
            Number::PosInt(
                if *b {
                    1
                } else {
                    0
                },
            ),
        ),
        (TypeClass::Unsigned, JsonValue::Number(_)) => Casting::Keep,
        (TypeClass::Unsigned, JsonValue::String(s)) => match parse_u64(s.as_str()) {
            Some(n) => cast_number(Number::PosInt(n)),
            None => Casting::Refuse,
        },
        (TypeClass::Unsigned, JsonValue::Bool(b)) => cast_number(
            Number::PosInt(
                if *b {
                    1
                } else {
                    0
                },
            ),
        ),
        (TypeClass::Float, JsonValue::Number(_)) => Casting::Keep,
        (TypeClass::Float, JsonValue::String(_)) => match reading {
            FloatReading::Finite(bits) => cast_number(Number::Float(bits)),
            _ => Casting::Refuse,
        },
        (TypeClass::Float, JsonValue::Bool(b)) => cast_number(
            Number::Float(
                if *b {
                    ONE_BITS
                } else {
                    ZERO_BITS
                },
            ),
        ),
        (TypeClass::Boolean, JsonValue::Bool(_)) => Casting::Keep,
        (TypeClass::Boolean, JsonValue::Number(n)) => Casting::Become(
            JsonValue::Bool(n.is_positive()),
        ),
        (TypeClass::Boolean, JsonValue::String(s)) => if same_text(s.as_str(), "true") {
            Casting::Become(JsonValue::Bool(true))
        } else if same_text(s.as_str(), "false") {
            Casting::Become(JsonValue::Bool(false))
        } else {
            Casting::Refuse
        },
        _ => Casting::Refuse,
    }
}

/// Says of a field that its value was refused.
pub fn set_parsing_error(parse_error: &mut String, field: &Field)
    ensures
        final(parse_error)@ == old(parse_error)@ + cast_message(field@),
{
    parse_error.append("Failed to cast ");
    parse_error.append(field.name());
    parse_error.append(" to type ");
    parse_error.append(field.data_type().type_text());
    parse_error.append(" ");
    assert(parse_error@ =~= old(parse_error)@ + cast_message(field@));
}

/// The record and the result of a casting agree with how far it came.
pub open spec fn cast_outcome(
    run: CastRun,
    record: Map<Seq<char>, Json>,
    result: Result<(), String>,
) -> bool {
    &&& record == run.record
    &&& if run.message.len() == 0 {
        result is Ok
    } else {
        result matches Err(message) && message@ == run.message
    }
}

/// No casting of the record, whatever texts its values have, comes upon a number without a JSON
/// form.
pub open spec fn never_stops<F: Fn(&JsonValue) -> String>(
    render: F,
    record: Map<Seq<char>, Json>,
    delta: Seq<FieldView>,
) -> bool {
    forall|texts: Seq<Seq<char>>| #[trigger]
        rendered(render, cast_start(record), delta, texts) ==> cast_run(
            cast_start(record),
            delta,
            texts,
        ).finite
}

/// No field of doubles holds a string that is a number without a JSON form.
pub open spec fn finite_fields(record: Map<Seq<char>, Json>, delta: Seq<FieldView>) -> bool {
    forall|i: int|
        0 <= i < delta.len() ==> ((#[trigger] delta[i]).class == TypeClass::Float
            && record.contains_key(delta[i].name) ==> reading_of(record[delta[i].name])
            != FloatReading::NotFinite)
}

/// Casts field by field, up to a number without a JSON form; what was said of refused values comes
/// back, or nothing where it stopped.
fn cast_fields<F: Fn(&JsonValue) -> String>(
    value: &mut Object,
    delta: &[Field],
    get_string_value: &F,
) -> (result: Option<String>)
    requires
        forall|x: &JsonValue| get_string_value.requires((x,)),
    ensures
        exists|texts: Seq<Seq<char>>| #[trigger]
            rendered(*get_string_value, cast_start(old(value)@), fields_view(delta@), texts) && {
                let run = cast_run(cast_start(old(value)@), fields_view(delta@), texts);
                match result {
                    Some(message) => run.finite && run.record == final(value)@ && run.message
                        == message@,
                    None => !run.finite,
                }
            },
{
    let mut parse_error = String::new();
    let ghost start = cast_start(value@);
    let ghost mut texts: Seq<Seq<char>> = Seq::empty();
    let ghost fields = fields_view(delta@);
    let mut i: usize = 0;
    assert(fields.take(0) =~= Seq::empty());
    while i < delta.len()
        invariant
            i <= delta.len(),
            fields == fields_view(delta@),
            start == cast_start(old(value)@),
            forall|x: &JsonValue| get_string_value.requires((x,)),
            rendered(*get_string_value, start, fields.take(i as int), texts),
            ({
                let run = cast_run(start, fields.take(i as int), texts);
                run.finite && run.record == value@ && run.message == parse_error@
            }),
        decreases delta.len() - i,
    {
        let field = &delta[i];
        let ghost before = cast_run(start, fields.take(i as int), texts);
        let ghost mut text_view: Seq<char> = Seq::empty();
        if let Some(val) = value.get(field.name()) {
            let class = field.data_type().type_class();
            let text = if class == TypeClass::Text && !val.is_null() && !val.is_string() {
                get_string_value(val)
            } else {
                String::new()
            };
            proof {
                text_view = text@;
                if wants_text(class, val@) {
                    assert(renders(*get_string_value, val@, text@));
                }
            }
            let reading = match val.as_str() {
                Some(s) if class == TypeClass::Float => parse_float(s),
                _ => FloatReading::NotANumber,
            };
            assert(class == TypeClass::Float ==> reading == reading_of(val@));
            if reading == FloatReading::NotFinite {
                proof {
                    let more = texts.push(text_view);
                    lemma_step(*get_string_value, start, fields, i as int, texts, text_view);
                    assert(!cast_run(start, fields.take(i + 1), more).finite);
                    lemma_stopped(*get_string_value, start, fields, i + 1, more);
                }
                return None;
            }
            match cast_json(class, val, text, reading) {
                Casting::Keep => {},
                Casting::Become(new) => {
                    value.insert(field.name().to_string(), new);
                },
                Casting::Refuse => {
                    set_parsing_error(&mut parse_error, field);
                },
            }
        }
        proof {
            lemma_step(*get_string_value, start, fields, i as int, texts, text_view);
            texts = texts.push(text_view);
        }
        i += 1;
    }
    assert(fields.take(delta.len() as int) =~= fields);
    Some(parse_error)
}

fn as_result(message: String) -> (result: Result<(), String>)
    ensures
        if message@.len() == 0 {
            result is Ok
        } else {
            result == Err::<(), String>(message)
        },
{
    if message.as_str().is_empty() {
        Ok(())
    } else {
        Err(message)
    }
}

/// Brings the values of a record to the types of some fields. `get_string_value` gives the text
/// of a value that is no string. A value that does not fit its type stays as it is, and the
/// error names its field. No field of doubles may come upon a number without a JSON form.
pub fn cast_to_type<F: Fn(&JsonValue) -> String>(
    value: &mut Object,
    delta: &[Field],
    get_string_value: &F,
) -> (result: Result<(), String>)
    requires
        forall|x: &JsonValue| get_string_value.requires((x,)),
        never_stops(*get_string_value, old(value)@, fields_view(delta@)),
    ensures
        exists|texts: Seq<Seq<char>>| #[trigger]
            rendered(*get_string_value, cast_start(old(value)@), fields_view(delta@), texts)
                && cast_outcome(
                cast_run(cast_start(old(value)@), fields_view(delta@), texts),
                final(value)@,
                result,
            ),
{
    match cast_fields(value, delta, get_string_value) {
        Some(message) => as_result(message),
        None => {
            assert(false);
            Ok(())
        },
    }
}

/// Whether no two fields have the same name, and no field of doubles holds a string that is a
/// number without a JSON form.
pub fn has_finite_fields(value: &Object, delta: &[Field]) -> (result: bool)
    ensures
        result == (names_differ(fields_view(delta@)) && finite_fields(
            value@,
            fields_view(delta@),
        )),
{
    let ghost fields = fields_view(delta@);
    let mut i: usize = 0;
    while i < delta.len()
        invariant
            i <= delta@.len(),
            fields == fields_view(delta@),
            forall|a: int, b: int|
                0 <= a < b < i ==> (#[trigger] fields[a]).name != (#[trigger] fields[b]).name,
            forall|a: int|
                0 <= a < i ==> ((#[trigger] fields[a]).class == TypeClass::Float
                    && value@.contains_key(fields[a].name) ==> reading_of(value@[fields[a].name])
                    != FloatReading::NotFinite),
        decreases delta.len() - i,
    {
        assert(fields[i as int] == delta@[i as int]@);
        let mut j: usize = 0;
        while j < i
            invariant
                j <= i < delta@.len(),
                fields == fields_view(delta@),
                forall|a: int| 0 <= a < j ==> (#[trigger] fields[a]).name != fields[i as int].name,
            decreases i - j,
        {
            assert(fields[j as int] == delta@[j as int]@);
            assert(fields[i as int] == delta@[i as int]@);
            if same_text(delta[j].name(), delta[i].name()) {
                return false;
            }
            j += 1;
        }
        if delta[i].data_type().type_class() == TypeClass::Float {
            if let Some(JsonValue::String(text)) = value.get(delta[i].name()) {
                if parse_float(text.as_str()) == FloatReading::NotFinite {
                    return false;
                }
            }
        }
        i += 1;
    }
    true
}

/// Casts a record like `cast_to_type`, unless its casting comes upon a number without a JSON form:
/// then nothing comes back and the record stays as it is.
pub fn try_cast_to_type<F: Fn(&JsonValue) -> String>(
    value: &mut Object,
    delta: &[Field],
    get_string_value: &F,
) -> (result: Option<Result<(), String>>)
    requires
        forall|x: &JsonValue| get_string_value.requires((x,)),
    ensures
        exists|texts: Seq<Seq<char>>| #[trigger]
            rendered(*get_string_value, cast_start(old(value)@), fields_view(delta@), texts) && {
                let run = cast_run(cast_start(old(value)@), fields_view(delta@), texts);
                match result {
                    Some(cast) => run.finite && cast_outcome(run, final(value)@, cast),
                    None => !run.finite && final(value)@ == old(value)@,
                }
            },
{
    let ghost fields = fields_view(delta@);
    let ghost record = value@;
    if has_finite_fields(value, delta) {
        proof {
            assert(never_stops(*get_string_value, record, fields)) by {
                assert forall|texts: Seq<Seq<char>>| #[trigger]
                    rendered(*get_string_value, cast_start(record), fields, texts) implies cast_run(
                    cast_start(record),
                    fields,
                    texts,
                ).finite by {
                    law_finite_fields_are_cast(record, fields, texts);
                }
            }
        }
        return Some(cast_to_type(value, delta, get_string_value));
    }
    let mut copy = value.clone();
    match cast_fields(&mut copy, delta, get_string_value) {
        Some(message) => {
            *value = copy;
            Some(as_result(message))
        },
        None => None,
    }
}

/// The casting of a record comes to its end where no two fields have the same name and no field of
/// doubles holds a string that is a number without a JSON form.
pub proof fn law_finite_fields_are_cast(
    record: Map<Seq<char>, Json>,
    delta: Seq<FieldView>,
    texts: Seq<Seq<char>>,
)
    requires
        delta.len() == texts.len(),
        names_differ(delta),
        finite_fields(record, delta),
    ensures
        cast_run(cast_start(record), delta, texts).finite,
    decreases delta.len(),
{
    if delta.len() > 0 {
        let some = delta.drop_last();
        let n = some.len() as int;
        let name = delta[n].name;
        assert(names_differ(some)) by {
            assert forall|i: int, j: int| 0 <= i < j < some.len() implies (#[trigger] some[i]).name
                != (#[trigger] some[j]).name by {
                assert(delta[i].name != delta[j].name);
            }
        }
        assert(finite_fields(record, some)) by {
            assert forall|i: int|
                0 <= i < some.len() && (#[trigger] some[i]).class == TypeClass::Float
                    && record.contains_key(some[i].name) implies reading_of(record[some[i].name])
                != FloatReading::NotFinite by {
                assert(some[i] == delta[i]);
            }
        }
        law_finite_fields_are_cast(record, some, texts.drop_last());
        law_cast_touches_named_fields(cast_start(record), some, texts.drop_last());
        assert(!names(some, name)) by {
            if names(some, name) {
                let i = choose|i: int| 0 <= i < some.len() && (#[trigger] some[i]).name == name;
                assert(delta[i].name != delta[n].name);
            }
        }
        let before = cast_run(cast_start(record), some, texts.drop_last());
        assert(before.record.dom().contains(name) == record.dom().contains(name));
        if record.contains_key(name) {
            assert(before.record[name] == record[name]);
        }
        assert(delta.last() == delta[n]);
    }
}

/// One more field, with its text.
proof fn lemma_step<F: Fn(&JsonValue) -> String>(
    render: F,
    start: CastRun,
    fields: Seq<FieldView>,
    i: int,
    texts: Seq<Seq<char>>,
    text: Seq<char>,
)
    requires
        0 <= i < fields.len(),
        rendered(render, start, fields.take(i), texts),
        ({
            let run = cast_run(start, fields.take(i), texts);
            let field = fields[i];
            run.finite && run.record.contains_key(field.name) && wants_text(
                field.class,
                run.record[field.name],
            ) ==> renders(render, run.record[field.name], text)
        }),
    ensures
        rendered(render, start, fields.take(i + 1), texts.push(text)),
        cast_run(start, fields.take(i + 1), texts.push(text)) == cast_field(
            cast_run(start, fields.take(i), texts),
            fields[i],
            text,
        ),
{
    assert(fields.take(i + 1).drop_last() =~= fields.take(i));
    assert(texts.push(text).drop_last() =~= texts);
}

/// Behind a number without a JSON form nothing happens.
proof fn lemma_stopped<F: Fn(&JsonValue) -> String>(
    render: F,
    start: CastRun,
    fields: Seq<FieldView>,
    i: int,
    texts: Seq<Seq<char>>,
)
    requires
        0 <= i <= fields.len(),
        rendered(render, start, fields.take(i), texts),
        !cast_run(start, fields.take(i), texts).finite,
    ensures
        exists|all: Seq<Seq<char>>| #[trigger]
            rendered(render, start, fields, all) && cast_run(start, fields, all) == cast_run(
                start,
                fields.take(i),
                texts,
            ),
    decreases fields.len() - i,
{
    if i < fields.len() {
        lemma_step(render, start, fields, i, texts, Seq::empty());
        lemma_stopped(render, start, fields, i + 1, texts.push(Seq::empty()));
    } else {
        assert(fields.take(i) =~= fields);
    }
}

/// Casting by two lists of fields, one behind the other, is casting by the first list and then
/// by the second.
pub proof fn law_cast_splits(
    run: CastRun,
    first: Seq<FieldView>,
    first_texts: Seq<Seq<char>>,
    second: Seq<FieldView>,
    second_texts: Seq<Seq<char>>,
)
    requires
        first.len() == first_texts.len(),
        second.len() == second_texts.len(),
    ensures
        cast_run(run, first + second, first_texts + second_texts) == cast_run(
            cast_run(run, first, first_texts),
            second,
            second_texts,
        ),
    decreases second.len(),
{
    if second.len() == 0 {
        assert(first + second =~= first);
        assert(first_texts + second_texts =~= first_texts);
    } else {
        assert((first + second).drop_last() =~= first + second.drop_last());
        assert((first_texts + second_texts).drop_last() =~= first_texts + second_texts.drop_last());
        law_cast_splits(run, first, first_texts, second.drop_last(), second_texts.drop_last());
    }
}

/// Some field of the list has the name.
pub open spec fn names(delta: Seq<FieldView>, name: Seq<char>) -> bool {
    exists|i: int| 0 <= i < delta.len() && (#[trigger] delta[i]).name == name
}

/// Casting adds no field to a record, takes none away, and leaves alone every field that the
/// list does not name.
pub proof fn law_cast_touches_named_fields(
    run: CastRun,
    delta: Seq<FieldView>,
    texts: Seq<Seq<char>>,
)
    requires
        delta.len() == texts.len(),
    ensures
        cast_run(run, delta, texts).record.dom() == run.record.dom(),
        forall|name: Seq<char>|
            run.record.contains_key(name) && !names(delta, name) ==> #[trigger] cast_run(
                run,
                delta,
                texts,
            ).record[name] == run.record[name],
        cast_run(run, delta, texts).finite ==> run.finite,
        run.message.len() <= cast_run(run, delta, texts).message.len(),
    decreases delta.len(),
{
    if delta.len() > 0 {
        let before = cast_run(run, delta.drop_last(), texts.drop_last());
        law_cast_touches_named_fields(run, delta.drop_last(), texts.drop_last());
        assert(cast_run(run, delta, texts).record.dom() =~= run.record.dom());
        assert forall|name: Seq<char>|
            run.record.contains_key(name) && !names(delta, name) implies #[trigger] cast_run(
            run,
            delta,
            texts,
        ).record[name] == run.record[name] by {
            assert(delta[delta.len() - 1].name != name);
            if names(delta.drop_last(), name) {
                let i = choose|i: int|
                    0 <= i < delta.drop_last().len() && (#[trigger] delta.drop_last()[i]).name == name;
                assert(delta[i].name == name);
            }
            assert(before.record[name] == run.record[name]);
        }
    }
}

/// No two fields of the list have the same name.
pub open spec fn names_differ(delta: Seq<FieldView>) -> bool {
    forall|i: int, j: int|
        0 <= i < j < delta.len() ==> (#[trigger] delta[i]).name != (#[trigger] delta[j]).name
}

/// The value has the type that the class asks for, or is null.
pub open spec fn fits(class: TypeClass, value: Json) -> bool {
    match (class, value) {
        (_, Json::Null) => true,
        (TypeClass::Text, Json::String(_)) => true,
        (TypeClass::Signed, Json::Number(_)) => true,
        (TypeClass::Unsigned, Json::Number(_)) => true,
        (TypeClass::Float, Json::Number(_)) => true,
        (TypeClass::Boolean, Json::Bool(_)) => true,
        _ => false,
    }
}

/// A value that has its type stays; what a value becomes has its type.
pub proof fn law_cast_gives_the_type(
    class: TypeClass,
    value: Json,
    text: Seq<char>,
    reading: FloatReading,
)
    ensures
        fits(class, value) <==> cast_value(class, value, text, reading) is Keep,
        cast_value(class, value, text, reading) matches Cast::Become(new) ==> fits(class, new),
{
}

/// What stands in a field after the whole list was gone through, where no two fields have the
/// same name: what became of the field's first value.
proof fn lemma_cast_at(
    run: CastRun,
    delta: Seq<FieldView>,
    texts: Seq<Seq<char>>,
    i: int,
)
    requires
        delta.len() == texts.len(),
        names_differ(delta),
        0 <= i < delta.len(),
        cast_run(run, delta, texts).finite,
        run.record.contains_key(delta[i].name),
    ensures
        ({
            let before = cast_run(run, delta.take(i), texts.take(i));
            let name = delta[i].name;
            &&& before.finite
            &&& before.record.contains_key(name)
            &&& before.record[name] == run.record[name]
            &&& cast_run(run, delta.take(i + 1), texts.take(i + 1)) == cast_field(
                before,
                delta[i],
                texts[i],
            )
            &&& cast_run(run, delta, texts).record[name] == cast_field(
                before,
                delta[i],
                texts[i],
            ).record[name]
            &&& cast_field(before, delta[i], texts[i]).finite
            &&& cast_field(before, delta[i], texts[i]).message.len() <= cast_run(
                run,
                delta,
                texts,
            ).message.len()
        }),
{
    let name = delta[i].name;
    let head = delta.take(i);
    let head_texts = texts.take(i);
    let upto = delta.take(i + 1);
    let upto_texts = texts.take(i + 1);
    let tail = delta.skip(i + 1);
    let tail_texts = texts.skip(i + 1);
    assert(upto.drop_last() =~= head);
    assert(upto_texts.drop_last() =~= head_texts);
    assert(delta =~= upto + tail);
    assert(texts =~= upto_texts + tail_texts);
    law_cast_splits(run, upto, upto_texts, tail, tail_texts);
    law_cast_touches_named_fields(run, head, head_texts);
    let middle = cast_run(run, upto, upto_texts);
    law_cast_touches_named_fields(middle, tail, tail_texts);
    law_cast_touches_named_fields(run, upto, upto_texts);
    assert(!names(head, name)) by {
        if names(head, name) {
            let j = choose|j: int| 0 <= j < head.len() && (#[trigger] head[j]).name == name;
            assert(delta[j].name == delta[i].name);
        }
    }
    assert(!names(tail, name)) by {
        if names(tail, name) {
            let j = choose|j: int| 0 <= j < tail.len() && (#[trigger] tail[j]).name == name;
            assert(delta[i].name == delta[j + i + 1].name);
        }
    }
    assert(middle.record.contains_key(name)) by {
        assert(middle.record.dom().contains(name));
    }
    assert(cast_run(run, head, head_texts).record.contains_key(name)) by {
        assert(cast_run(run, head, head_texts).record.dom().contains(name));
    }
}

/// Where casting ends without an error, every field of the list that the record has holds a
/// value of its type, or null. No two fields of the list have the same name.
pub proof fn law_cast_record_fits(
    record: Map<Seq<char>, Json>,
    delta: Seq<FieldView>,
    texts: Seq<Seq<char>>,
    i: int,
)
    requires
        delta.len() == texts.len(),
        names_differ(delta),
        0 <= i < delta.len(),
        record.contains_key(delta[i].name),
        cast_run(cast_start(record), delta, texts).finite,
        cast_run(cast_start(record), delta, texts).message.len() == 0,
    ensures
        fits(delta[i].class, cast_run(cast_start(record), delta, texts).record[delta[i].name]),
{
    let start = cast_start(record);
    lemma_cast_at(start, delta, texts, i);
    let before = cast_run(start, delta.take(i), texts.take(i));
    let value = record[delta[i].name];
    law_cast_gives_the_type(delta[i].class, value, texts[i], reading_of(value));
    assert(cast_message(delta[i]).len() > 0) by {
        reveal_strlit("Failed to cast ");
    }
}

/// Casting a record a second time by the same list changes nothing and says the same, whatever
/// the texts. No two fields of the list have the same name.
pub proof fn law_cast_is_idempotent(
    record: Map<Seq<char>, Json>,
    delta: Seq<FieldView>,
    texts: Seq<Seq<char>>,
    again: Seq<Seq<char>>,
)
    requires
        delta.len() == texts.len(),
        delta.len() == again.len(),
        names_differ(delta),
        cast_run(cast_start(record), delta, texts).finite,
    ensures
        cast_run(
            cast_start(cast_run(cast_start(record), delta, texts).record),
            delta,
            again,
        ) == cast_run(cast_start(record), delta, texts),
{
    let once = cast_run(cast_start(record), delta, texts);
    lemma_cast_again(record, delta, texts, again, delta.len() as int);
    assert(delta.take(delta.len() as int) =~= delta);
    assert(texts.take(delta.len() as int) =~= texts);
    assert(again.take(delta.len() as int) =~= again);
}

/// A second casting has, after some fields, said what the first had said after them.
proof fn lemma_cast_again(
    record: Map<Seq<char>, Json>,
    delta: Seq<FieldView>,
    texts: Seq<Seq<char>>,
    again: Seq<Seq<char>>,
    i: int,
)
    requires
        delta.len() == texts.len(),
        delta.len() == again.len(),
        names_differ(delta),
        cast_run(cast_start(record), delta, texts).finite,
        0 <= i <= delta.len(),
    ensures
        ({
            let once = cast_run(cast_start(record), delta, texts);
            cast_run(cast_start(once.record), delta.take(i), again.take(i)) == CastRun {
                message: cast_run(cast_start(record), delta.take(i), texts.take(i)).message,
                ..once
            }
        }),
    decreases i,
{
    let start = cast_start(record);
    let once = cast_run(start, delta, texts);
    if i > 0 {
        let field = delta[i - 1];
        lemma_cast_again(record, delta, texts, again, i - 1);
        assert(delta.take(i).drop_last() =~= delta.take(i - 1));
        assert(texts.take(i).drop_last() =~= texts.take(i - 1));
        assert(again.take(i).drop_last() =~= again.take(i - 1));
        law_cast_touches_named_fields(start, delta, texts);
        law_cast_touches_named_fields(start, delta.take(i - 1), texts.take(i - 1));
        let before = cast_run(start, delta.take(i - 1), texts.take(i - 1));
        assert(once.record.dom().contains(field.name) == record.dom().contains(field.name));
        assert(before.record.dom().contains(field.name) == record.dom().contains(field.name));
        if record.contains_key(field.name) {
            lemma_cast_at(start, delta, texts, i - 1);
            let value = record[field.name];
            let now = once.record[field.name];
            law_cast_gives_the_type(field.class, value, texts[i - 1], reading_of(value));
            law_cast_gives_the_type(field.class, now, again[i - 1], reading_of(now));
        }
    }
}

/// The number is the integer `n`; a double is it only for one and zero, by its bits.
pub open spec fn number_is(number: Number, n: int) -> bool {
    match number {
        Number::PosInt(u) => u == n,
        Number::NegInt(i) => i == n,
        Number::Float(bits) => (n == 1 && bits == 0x3ff0_0000_0000_0000) || (n == 0 && bits == 0),
    }
}

/// The class asks for numbers.
pub open spec fn numeric(class: TypeClass) -> bool {
    class == TypeClass::Signed || class == TypeClass::Unsigned || class == TypeClass::Float
}

/// A boolean that becomes a number, of whatever kind, becomes one where it is true and zero where
/// it is false, and the number becomes that boolean again.
pub proof fn law_booleans_keep_their_value(
    class: TypeClass,
    b: bool,
    text: Seq<char>,
    reading: FloatReading,
    other_text: Seq<char>,
    other_reading: FloatReading,
)
    requires
        numeric(class),
    ensures
        cast_value(class, Json::Bool(b), text, reading) matches Cast::Become(Json::Number(number)) && {
            &&& number_is(
                number,
                if b {
                    1
                } else {
                    0
                },
            )
            &&& class == TypeClass::Float <==> number is Float
            &&& cast_value(TypeClass::Boolean, Json::Number(number), other_text, other_reading)
                == Cast::Become(Json::Bool(b))
        },
        cast_value(class, Json::Bool(true), text, reading) != cast_value(
            class,
            Json::Bool(false),
            text,
            reading,
        ),
{
    assert(bit(true) == 1 && bit(false) == 0);
}

/// A string that writes an integer becomes that integer, where it has a place among the integers
/// of the class, and is refused where it has none; the integer is true as a boolean where it lies
/// above zero.
pub proof fn law_written_integers_are_cast(
    n: nat,
    text: Seq<char>,
    reading: FloatReading,
    other_text: Seq<char>,
    other_reading: FloatReading,
)
    ensures
        match cast_value(TypeClass::Signed, Json::String(decimal(n)), text, reading) {
            Cast::Become(Json::Number(number)) => n <= i64::MAX && number_is(number, n as int)
                && cast_value(TypeClass::Boolean, Json::Number(number), other_text, other_reading)
                == Cast::Become(Json::Bool(n > 0)),
            Cast::Refuse => n > i64::MAX,
            _ => false,
        },
        match cast_value(TypeClass::Signed, Json::String("-"@ + decimal(n)), text, reading) {
            Cast::Become(Json::Number(number)) => -n >= i64::MIN && number_is(number, -n)
                && cast_value(TypeClass::Boolean, Json::Number(number), other_text, other_reading)
                == Cast::Become(Json::Bool(false)),
            Cast::Refuse => -n < i64::MIN,
            _ => false,
        },
        match cast_value(TypeClass::Unsigned, Json::String(decimal(n)), text, reading) {
            Cast::Become(Json::Number(number)) => n <= u64::MAX && number_is(number, n as int),
            Cast::Refuse => n > u64::MAX,
            _ => false,
        },
        cast_value(TypeClass::Unsigned, Json::String("-"@ + decimal(n)), text, reading) is Refuse,
        cast_value(TypeClass::Signed, Json::String("+"@ + decimal(n)), text, reading)
            == cast_value(TypeClass::Signed, Json::String(decimal(n)), text, reading),
        cast_value(TypeClass::Unsigned, Json::String("+"@ + decimal(n)), text, reading)
            == cast_value(TypeClass::Unsigned, Json::String(decimal(n)), text, reading),
{
    law_written_integers_are_read(n);
}

/// A string that holds anything but digits behind a sign becomes no integer: it is refused.
pub proof fn law_other_texts_are_no_integers(
    class: TypeClass,
    s: Seq<char>,
    i: int,
    text: Seq<char>,
    reading: FloatReading,
)
    requires
        class == TypeClass::Signed || class == TypeClass::Unsigned,
        s.len() == 0 || (0 <= i < s.len() && !('0' <= s[i] <= '9') && (i > 0 || s.len() == 1 || !(
        s[0] == '+' || s[0] == '-'))),
    ensures
        cast_value(class, Json::String(s), text, reading) is Refuse,
{
    law_only_digits_are_read(s);
}

/// A string becomes the double that it writes, and is refused where it writes none; it becomes a
/// boolean where it is `true` or `false`, and is refused where it is neither.
pub proof fn law_texts_become_what_they_write(
    s: Seq<char>,
    text: Seq<char>,
    reading: FloatReading,
)
    ensures
        cast_value(TypeClass::Float, Json::String(s), text, reading) == match reading {
            FloatReading::Finite(bits) => Cast::Become(Json::Number(Number::Float(bits))),
            FloatReading::NotANumber => Cast::Refuse,
            FloatReading::NotFinite => Cast::NotFinite,
        },
        cast_value(TypeClass::Boolean, Json::String(s), text, reading) == (if s == "true"@ {
            Cast::Become(Json::Bool(true))
        } else if s == "false"@ {
            Cast::Become(Json::Bool(false))
        } else {
            Cast::Refuse
        }),
        "true"@ != "false"@,
{
    reveal_strlit("true");
    reveal_strlit("false");
    assert("true"@.len() != "false"@.len());
}

/// A number is true as a boolean where it lies above zero: an integer by its value, a double where
/// its sign bit is clear, it is not zero and it is a number.
pub proof fn law_numbers_above_zero_are_true(
    number: Number,
    text: Seq<char>,
    reading: FloatReading,
)
    ensures
        cast_value(TypeClass::Boolean, Json::Number(number), text, reading) matches Cast::Become(
            Json::Bool(b),
        ) && (b <==> match number {
            Number::PosInt(u) => u != 0,
            Number::NegInt(i) => i > 0,
            Number::Float(bits) => bits < 0x8000_0000_0000_0000 && bits != 0 && bits
                <= 0x7ff0_0000_0000_0000,
        }),
{
}

/// Null stays where any type is asked for, and a string where text is; any other value becomes its
/// text. A list or an object becomes nothing else, and no value fits a type to which values are not
/// cast: they are refused.
pub proof fn law_other_values_are_refused(
    class: TypeClass,
    value: Json,
    text: Seq<char>,
    reading: FloatReading,
)
    ensures
        cast_value(class, Json::Null, text, reading) is Keep,
        value is String ==> cast_value(TypeClass::Text, value, text, reading) is Keep,
        !(value is String) && !(value is Null) ==> cast_value(TypeClass::Text, value, text, reading)
            == Cast::Become(Json::String(text)),
        (value is Array || value is Object) && class != TypeClass::Text ==> cast_value(
            class,
            value,
            text,
            reading,
        ) is Refuse,
        !(value is Null) ==> cast_value(TypeClass::Other, value, text, reading) is Refuse,
        value is Number && numeric(class) ==> cast_value(class, value, text, reading) is Keep,
        value is Bool ==> cast_value(TypeClass::Boolean, value, text, reading) is Keep,
{
}

/// Casting to one field does what is done to its value, and nothing else: a value that is refused
/// stays, and the field's name and type are told behind what was told before. A record without the
/// field stays as it is.
pub proof fn law_one_field_is_cast(run: CastRun, field: FieldView, text: Seq<char>)
    requires
        run.finite,
    ensures
        ({
            let after = cast_run(run, seq![field], seq![text]);
            if run.record.contains_key(field.name) {
                let value = run.record[field.name];
                let reading = match value {
                    Json::String(s) => float_reading(s),
                    _ => FloatReading::NotANumber,
                };
                match cast_value(field.class, value, text, reading) {
                    Cast::Keep => after == run,
                    Cast::Become(new) => {
                        &&& after.finite
                        &&& after.message == run.message
                        &&& after.record == run.record.insert(field.name, new)
                    },
                    Cast::Refuse => {
                        &&& after.finite
                        &&& after.record == run.record
                        &&& after.message == run.message + ("Failed to cast "@ + field.name
                            + " to type "@ + field.type_text + " "@)
                    },
                    Cast::NotFinite => !after.finite,
                }
            } else {
                after == run
            }
        }),
{
    let delta = seq![field];
    let texts = seq![text];
    assert(delta.drop_last() =~= Seq::empty());
    assert(texts.drop_last() =~= Seq::empty());
    assert(cast_run(run, delta.drop_last(), texts.drop_last()) == run);
}

/// Each field that a record has is cast on its own, by the value that the record has in it, where no
/// two fields have the same name: it holds what became of that value, or the value itself where it
/// was refused, and then something is told. A value that becomes text becomes one that the function
/// may give for it.
pub proof fn law_each_field_is_cast_by_its_value<F: Fn(&JsonValue) -> String>(
    render: F,
    record: Map<Seq<char>, Json>,
    delta: Seq<FieldView>,
    texts: Seq<Seq<char>>,
    i: int,
)
    requires
        rendered(render, cast_start(record), delta, texts),
        names_differ(delta),
        0 <= i < delta.len(),
        record.contains_key(delta[i].name),
        cast_run(cast_start(record), delta, texts).finite,
    ensures
        ({
            let run = cast_run(cast_start(record), delta, texts);
            let value = record[delta[i].name];
            let now = run.record[delta[i].name];
            &&& run.record.contains_key(delta[i].name)
            &&& match cast_value(delta[i].class, value, texts[i], reading_of(value)) {
                Cast::Keep => now == value,
                Cast::Become(new) => now == new,
                Cast::Refuse => now == value && run.message.len() > 0,
                Cast::NotFinite => false,
            }
            &&& delta[i].class == TypeClass::Text && !(value is Null) && !(value is String) ==> (now
                matches Json::String(text) && exists|x: &JsonValue, s: String|
                x@ == value && s@ == text && #[trigger] render.ensures((x,), s))
        }),
{
    let start = cast_start(record);
    lemma_rendered_lens(render, start, delta, texts);
    lemma_cast_at(start, delta, texts, i);
    law_cast_touches_named_fields(start, delta, texts);
    let run = cast_run(start, delta, texts);
    assert(run.record.dom().contains(delta[i].name));
    assert(cast_message(delta[i]).len() > 0) by {
        reveal_strlit("Failed to cast ");
    }
    lemma_rendered_at(render, start, delta, texts, i);
}

proof fn lemma_rendered_lens<F: Fn(&JsonValue) -> String>(
    render: F,
    run: CastRun,
    delta: Seq<FieldView>,
    texts: Seq<Seq<char>>,
)
    requires
        rendered(render, run, delta, texts),
    ensures
        texts.len() == delta.len(),
{
}

/// The text of a field is one that the function may give for the value that the field meets.
proof fn lemma_rendered_at<F: Fn(&JsonValue) -> String>(
    render: F,
    run: CastRun,
    delta: Seq<FieldView>,
    texts: Seq<Seq<char>>,
    i: int,
)
    requires
        rendered(render, run, delta, texts),
        0 <= i < delta.len(),
    ensures
        ({
            let before = cast_run(run, delta.take(i), texts.take(i));
            before.finite && before.record.contains_key(delta[i].name) && wants_text(
                delta[i].class,
                before.record[delta[i].name],
            ) ==> renders(render, before.record[delta[i].name], texts[i])
        }),
    decreases delta.len(),
{
    let n = delta.len() - 1;
    let some = delta.drop_last();
    let said = texts.drop_last();
    if i == n {
        assert(delta.take(i) =~= some);
        assert(texts.take(i) =~= said);
    } else {
        lemma_rendered_at(render, run, some, said, i);
        assert(some.take(i) =~= delta.take(i));
        assert(said.take(i) =~= texts.take(i));
        assert(some[i] == delta[i]);
        assert(said[i] == texts[i]);
    }
}

/// The fields to which a batch is cast are chosen one by one and keep their order: all of those
/// whose types changed where the schema itself has not changed, else those that are marked by
/// `zo_cast`.
pub proof fn law_fields_to_cast_are_chosen(
    first: Seq<FieldView>,
    field: FieldView,
    is_schema_changed: bool,
)
    ensures
        fields_to_cast(Some(first), false) == Some(first),
        fields_to_cast(Some(Seq::<FieldView>::empty()), is_schema_changed) == Some(
            Seq::<FieldView>::empty(),
        ),
        fields_to_cast(Some(first.push(field)), true) == Some(
            if field.metadata.contains_key("zo_cast"@) {
                fields_to_cast(Some(first), true)->Some_0.push(field)
            } else {
                fields_to_cast(Some(first), true)->Some_0
            },
        ),
        fields_to_cast(None, is_schema_changed) is None,
{
    reveal(Seq::filter);
    assert(first.push(field).drop_last() =~= first);
}

/// What a type asks for shows in its text: integers with a sign, integers without one, doubles,
/// booleans and texts are told apart by how their types begin or end, and no two types have the
/// same text.
pub proof fn law_types_are_told_by_their_texts(one: DataType, other: DataType)
    requires
        !(one is Other),
        !(other is Other),
    ensures
        one.class() == TypeClass::Signed <==> one.text()[0] == 'I',
        one.class() == TypeClass::Unsigned <==> one.text()[0] == 'U' && one.text()[1] == 'I',
        one.class() == TypeClass::Float <==> one.text()[0] == 'F',
        one.class() == TypeClass::Boolean <==> one.text()[0] == 'B',
        one.class() == TypeClass::Text <==> one.text().last() == '8' && one.text()[one.text().len()
            - 2] == 'f',
        one.class() != TypeClass::Other,
        one.text() == other.text() ==> one == other,
{
    reveal_strlit("Utf8");
    reveal_strlit("LargeUtf8");
    reveal_strlit("Int64");
    reveal_strlit("Int32");
    reveal_strlit("Int16");
    reveal_strlit("Int8");
    reveal_strlit("UInt64");
    reveal_strlit("UInt32");
    reveal_strlit("UInt16");
    reveal_strlit("UInt8");
    reveal_strlit("Float64");
    reveal_strlit("Float32");
    reveal_strlit("Float16");
    reveal_strlit("Boolean");
    let a = one.text();
    let b = other.text();
    if a == b {
        assert(a.len() == b.len());
        assert(a[0] == b[0]);
        assert(a[a.len() - 1] == b[b.len() - 1]);
        assert(a[a.len() - 2] == b[b.len() - 2]);
    }
}

/// A casting that came to its end gives the record as it was cast, and is an error exactly where
/// something was told, which the error then tells.
pub proof fn law_castings_give_what_was_told(
    run: CastRun,
    record: Map<Seq<char>, Json>,
    result: Result<(), String>,
)
    requires
        cast_outcome(run, record, result),
    ensures
        record == run.record,
        result is Ok <==> run.message.len() == 0,
        result matches Err(message) ==> message@ == run.message,
{
}

/// A type to which values are not cast is told by its own text.
pub proof fn law_other_types_have_their_own_text(text: String)
    ensures
        DataType::Other(text).class() == TypeClass::Other,
        DataType::Other(text).text() == text@,
{
}

} // verus!
