//! The dynamic value tree, its mathematical model, and the error kinds.

use vstd::prelude::*;

verus! {

/// Mathematical model of a wire value: what a [`WireValue`] denotes.
///
/// Floats are carried as their IEEE-754 bit patterns, so that equality of
/// models is equality of the encoded bits.
pub enum Value {
    Nil,
    Bool(bool),
    U8(u8),
    U16(u16),
    U32(u32),
    U64(u64),
    I8(i8),
    I16(i16),
    I32(i32),
    I64(i64),
    Float32(u32),
    Float64(u64),
    Binary(Seq<u8>),
    Str(Seq<char>),
    Array(Seq<Value>),
    Mapping(Seq<(Value, Value)>),
    Timestamp { seconds: i64, nanoseconds: u32 },
    ModDescriptor { acronym: Seq<char>, settings: Box<Value> },
}

/// A decoded or to-be-encoded value.
///
/// `Float32` and `Float64` hold the IEEE-754 bit pattern of the number.
/// `Mapping` keeps its entries in wire order. A `ModDescriptor` is the record
/// `{acronym, settings}` that travels as a two-element array.
#[derive(Debug, PartialEq, Eq)]
pub enum WireValue {
    Nil,
    Bool(bool),
    U8(u8),
    U16(u16),
    U32(u32),
    U64(u64),
    I8(i8),
    I16(i16),
    I32(i32),
    I64(i64),
    Float32(u32),
    Float64(u64),
    Binary(Vec<u8>),
    Str(String),
    Array(Vec<WireValue>),
    Mapping(Vec<(WireValue, WireValue)>),
    Timestamp { seconds: i64, nanoseconds: u32 },
    ModDescriptor { acronym: String, settings: Box<WireValue> },
}

impl WireValue {
    /// The model of this value, children included.
    pub open spec fn model(&self) -> Value
        decreases self,
    {
        match self {
            WireValue::Nil => Value::Nil,
            WireValue::Bool(b) => Value::Bool(*b),
            WireValue::U8(n) => Value::U8(*n),
            WireValue::U16(n) => Value::U16(*n),
            WireValue::U32(n) => Value::U32(*n),
            WireValue::U64(n) => Value::U64(*n),
            WireValue::I8(n) => Value::I8(*n),
            WireValue::I16(n) => Value::I16(*n),
            WireValue::I32(n) => Value::I32(*n),
            WireValue::I64(n) => Value::I64(*n),
            WireValue::Float32(bits) => Value::Float32(*bits),
            WireValue::Float64(bits) => Value::Float64(*bits),
            WireValue::Binary(data) => Value::Binary(data@),
            WireValue::Str(text) => Value::Str(text@),
            WireValue::Array(items) => Value::Array(
                Seq::new(
                    items@.len(),
                    |i: int|
                        if 0 <= i < items@.len() {
                            items@[i].model()
                        } else {
                            Value::Nil
                        },
                ),
            ),
            WireValue::Mapping(entries) => Value::Mapping(
                Seq::new(
                    entries@.len(),
                    |i: int|
                        if 0 <= i < entries@.len() {
                            (entries@[i].0.model(), entries@[i].1.model())
                        } else {
                            (Value::Nil, Value::Nil)
                        },
                ),
            ),
            WireValue::Timestamp { seconds, nanoseconds } => Value::Timestamp {
                seconds: *seconds,
                nanoseconds: *nanoseconds,
            },
            WireValue::ModDescriptor { acronym, settings } => Value::ModDescriptor {
                acronym: acronym@,
                settings: Box::new(settings.model()),
            },
        }
    }
}

impl View for WireValue {
    type V = Value;

    open spec fn view(&self) -> Value {
        self.model()
    }
}

/// The models of a run of values, in order.
pub open spec fn models(values: Seq<WireValue>) -> Seq<Value> {
    Seq::new(values.len(), |i: int| values[i].model())
}

/// The models of a run of entries, in order.
pub open spec fn entry_models(entries: Seq<(WireValue, WireValue)>) -> Seq<(Value, Value)> {
    Seq::new(entries.len(), |i: int| (entries[i].0.model(), entries[i].1.model()))
}

/// The model of an array is the models of its elements.
pub proof fn lemma_array_model(items: Vec<WireValue>)
    ensures
        WireValue::Array(items)@ == Value::Array(models(items@)),
{
    assert(WireValue::Array(items).model()->Array_0 =~= models(items@));
}

/// The model of a mapping is the models of its entries.
pub proof fn lemma_mapping_model(entries: Vec<(WireValue, WireValue)>)
    ensures
        WireValue::Mapping(entries)@ == Value::Mapping(entry_models(entries@)),
{
    assert(WireValue::Mapping(entries).model()->Mapping_0 =~= entry_models(entries@));
}

/// Why a buffer could not be decoded.
#[derive(Debug, Clone, Copy, PartialEq, Eq)]
pub enum DecodeError {
    /// The buffer ends before a marker or a declared payload is complete.
    TruncatedInput,
    /// A string payload is not valid UTF-8.
    InvalidEncoding,
    /// The byte at a marker position is the one marker the format reserves.
    UnsupportedMarker,
    /// An extension carries a type tag other than the timestamp tag.
    UnsupportedExtensionType,
    /// A timestamp extension has a payload of a length other than 4, 8 or 12.
    InvalidTimestampLength,
    /// Seconds and nanoseconds that name no absolute UTC instant.
    UnrepresentableInstant,
    /// Containers are nested deeper than the caller allowed.
    DepthLimitExceeded,
}

/// Why a value could not be encoded.
#[derive(Debug, Clone, Copy, PartialEq, Eq)]
pub enum EncodeError {
    /// The value, or a value inside it, has no encoding rule.
    UnsupportedValueKind,
}

} // verus!
