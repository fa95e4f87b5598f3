//! The value types: owned `Value` and borrowed `ValueRef`, and their common model.
use vstd::prelude::*;
use vstd::slice::slice_to_vec;
use vstd::utf8::*;

verus! {

/// What a MessagePack value is, independent of whether it owns or borrows its bytes.
///
/// Integers are mathematical integers, floats are their IEEE-754 bit patterns and strings
/// are the raw bytes that were (or will be) on the wire.
pub enum ValueModel {
    Nil,
    Boolean(bool),
    Integer(int),
    F32(u32),
    F64(u64),
    String(Seq<u8>),
    Binary(Seq<u8>),
    Array(Seq<ValueModel>),
    Mapping(Seq<(ValueModel, ValueModel)>),
    Ext(i8, Seq<u8>),
}

#[derive(Clone, Copy, Debug, PartialEq, Eq)]
pub(crate) enum IntPriv {
    /// Always non-negative.
    PosInt(u64),
    /// Always negative.
    NegInt(i64),
}

/// A MessagePack integer: any value of `u64` or of `i64`.
#[derive(Clone, Copy, Debug, PartialEq, Eq)]
pub struct Integer {
    pub(crate) n: IntPriv,
}

impl Integer {
    /// The integer this value stands for.
    pub closed spec fn value(&self) -> int {
        match self.n {
            IntPriv::PosInt(n) => n as int,
            IntPriv::NegInt(n) => n as int,
        }
    }

    /// Whether the representation is the canonical one (negative numbers only in `NegInt`).
    pub closed spec fn wf(&self) -> bool {
        match self.n {
            IntPriv::PosInt(_) => true,
            IntPriv::NegInt(n) => n < 0,
        }
    }

    /// The value of each representation.
    pub(crate) proof fn lemma_value(&self)
        ensures
            match self.n {
                IntPriv::PosInt(n) => self.value() == n,
                IntPriv::NegInt(n) => self.value() == n,
            },
    {
    }

    /// The integer `n`.
    pub fn from_u64(n: u64) -> (r: Integer)
        ensures
            r.value() == n,
            r.wf(),
    {
        Integer { n: IntPriv::PosInt(n) }
    }

    /// The integer `n`.
    pub fn from_i64(n: i64) -> (r: Integer)
        ensures
            r.value() == n,
            r.wf(),
    {
        if n < 0 {
            Integer { n: IntPriv::NegInt(n) }
        } else {
            Integer { n: IntPriv::PosInt(n as u64) }
        }
    }

    /// Returns `true` if the integer can be represented as `i64`.
    pub fn is_i64(&self) -> (b: bool)
        ensures
            b == (i64::MIN <= self.value() <= i64::MAX),
    {
        match self.n {
            IntPriv::PosInt(n) => n <= i64::MAX as u64,
            IntPriv::NegInt(_) => true,
        }
    }

    /// Returns `true` if the integer can be represented as `u64`.
    pub fn is_u64(&self) -> (b: bool)
        ensures
            b == (0 <= self.value() <= u64::MAX),
    {
        match self.n {
            IntPriv::PosInt(_) => true,
            IntPriv::NegInt(n) => n >= 0,
        }
    }

    /// The integer as `i64`, if it fits.
    pub fn as_i64(&self) -> (r: Option<i64>)
        ensures
            r matches Some(x) ==> x == self.value(),
            r is Some <==> i64::MIN <= self.value() <= i64::MAX,
    {
        match self.n {
            IntPriv::PosInt(n) => if n <= i64::MAX as u64 {
                Some(n as i64)
            } else {
                None
            },
            IntPriv::NegInt(n) => Some(n),
        }
    }

    /// The integer as `u64`, if it fits.
    pub fn as_u64(&self) -> (r: Option<u64>)
        ensures
            r matches Some(x) ==> x == self.value(),
            r is Some <==> 0 <= self.value() <= u64::MAX,
    {
        match self.n {
            IntPriv::PosInt(n) => Some(n),
            IntPriv::NegInt(n) => if n >= 0 {
                Some(n as u64)
            } else {
                None
            },
        }
    }
}

#[verifier::external_type_specification]
#[verifier::external_body]
pub struct ExUtf8Error(core::str::Utf8Error);

/// A string borrowed from the decoded buffer: its text if the bytes are valid UTF-8, else
/// the raw bytes and the reason they are not.
#[derive(Clone, Copy, Debug, PartialEq)]
pub struct Utf8StringRef<'a> {
    pub(crate) s: Result<&'a str, (&'a [u8], core::str::Utf8Error)>,
}

impl<'a> Utf8StringRef<'a> {
    /// The bytes of the string.
    pub closed spec fn bytes(&self) -> Seq<u8> {
        match self.s {
            Ok(s) => encode_utf8(s@),
            Err((b, _)) => b@,
        }
    }

    /// Whether the string holds text exactly when its bytes are valid UTF-8.
    pub closed spec fn wf(&self) -> bool {
        match self.s {
            Ok(_) => true,
            Err((b, _)) => !valid_utf8(b@),
        }
    }

    /// Whether the bytes were valid UTF-8.
    pub closed spec fn spec_is_str(&self) -> bool {
        self.s is Ok
    }

    /// The text of a string slice.
    pub fn from_str(s: &'a str) -> (r: Utf8StringRef<'a>)
        ensures
            r.bytes() == encode_utf8(s@),
            r.wf(),
            r.spec_is_str(),
    {
        Utf8StringRef { s: Ok(s) }
    }

    /// A string of bytes that are not valid UTF-8, with the reason why.
    pub(crate) fn from_invalid(b: &'a [u8], err: core::str::Utf8Error) -> (r: Utf8StringRef<'a>)
        requires
            !valid_utf8(b@),
        ensures
            r.bytes() == b@,
            r.wf(),
            !r.spec_is_str(),
    {
        Utf8StringRef { s: Err((b, err)) }
    }

    /// Returns `true` if the string holds valid UTF-8.
    pub fn is_str(&self) -> (b: bool)
        ensures
            b == self.spec_is_str(),
            self.wf() ==> (b == valid_utf8(self.bytes())),
    {
        proof {
            if let Ok(s) = self.s {
                vstd::utf8::encode_utf8_valid_utf8(s@);
            }
        }
        self.s.is_ok()
    }

    /// Returns `true` if the string holds bytes that are not valid UTF-8.
    pub fn is_err(&self) -> (b: bool)
        ensures
            b == !self.spec_is_str(),
    {
        self.s.is_err()
    }

    /// The text, if the bytes are valid UTF-8.
    pub fn as_str(&self) -> (r: Option<&'a str>)
        ensures
            r is Some <==> self.spec_is_str(),
            r matches Some(s) ==> encode_utf8(s@) == self.bytes(),
    {
        match self.s {
            Ok(s) => Some(s),
            Err(_) => None,
        }
    }

    /// The raw bytes of the string.
    pub fn as_bytes(&self) -> (r: &'a [u8])
        ensures
            r@ == self.bytes(),
    {
        match self.s {
            Ok(s) => s.as_bytes(),
            Err((b, _)) => b,
        }
    }
}

/// A MessagePack value that borrows its strings and byte strings from the decoded buffer.
#[derive(Debug, PartialEq)]
pub enum ValueRef<'a> {
    Nil,
    Boolean(bool),
    Integer(Integer),
    /// The IEEE-754 bits of a single-precision float.
    F32(u32),
    /// The IEEE-754 bits of a double-precision float.
    F64(u64),
    String(Utf8StringRef<'a>),
    Binary(&'a [u8]),
    Array(Vec<ValueRef<'a>>),
    Mapping(Vec<(ValueRef<'a>, ValueRef<'a>)>),
    Ext(i8, &'a [u8]),
}

impl<'a> ValueRef<'a> {
    /// What the value stands for.
    pub open spec fn model(&self) -> ValueModel
        decreases self,
    {
        match self {
            ValueRef::Nil => ValueModel::Nil,
            ValueRef::Boolean(b) => ValueModel::Boolean(*b),
            ValueRef::Integer(i) => ValueModel::Integer(i.value()),
            ValueRef::F32(b) => ValueModel::F32(*b),
            ValueRef::F64(b) => ValueModel::F64(*b),
            ValueRef::String(s) => ValueModel::String(s.bytes()),
            ValueRef::Binary(b) => ValueModel::Binary(b@),
            ValueRef::Array(items) => ValueModel::Array(
                Seq::new(
                    items@.len(),
                    |i: int|
                        if 0 <= i < items@.len() {
                            items@[i].model()
                        } else {
                            ValueModel::Nil
                        },
                ),
            ),
            ValueRef::Mapping(entries) => ValueModel::Mapping(
                Seq::new(
                    entries@.len(),
                    |i: int|
                        if 0 <= i < entries@.len() {
                            (entries@[i].0.model(), entries@[i].1.model())
                        } else {
                            (ValueModel::Nil, ValueModel::Nil)
                        },
                ),
            ),
            ValueRef::Ext(ty, b) => ValueModel::Ext(*ty, b@),
        }
    }

    /// Whether every integer in the value is in its canonical form and every string holds
    /// text exactly when its bytes are valid UTF-8.
    pub open spec fn wf(&self) -> bool
        decreases self,
    {
        match self {
            ValueRef::Integer(i) => i.wf(),
            ValueRef::String(s) => s.wf(),
            ValueRef::Array(items) => forall|i: int|
                0 <= i < items@.len() ==> (#[trigger] items@[i]).wf(),
            ValueRef::Mapping(entries) => forall|i: int|
                0 <= i < entries@.len() ==> (#[trigger] entries@[i]).0.wf() && entries@[i].1.wf(),
            _ => true,
        }
    }
}

/// The models of a sequence of borrowed values.
pub open spec fn ref_models<'a>(items: Seq<ValueRef<'a>>) -> Seq<ValueModel> {
    Seq::new(items.len(), |i: int| items[i].model())
}

/// The models of a sequence of borrowed key-value entries.
pub open spec fn ref_entry_models<'a>(entries: Seq<(ValueRef<'a>, ValueRef<'a>)>) -> Seq<
    (ValueModel, ValueModel),
> {
    Seq::new(entries.len(), |i: int| (entries[i].0.model(), entries[i].1.model()))
}

/// Whether each of `items` is well formed.
pub open spec fn all_wf<'a>(items: Seq<ValueRef<'a>>) -> bool {
    forall|i: int| 0 <= i < items.len() ==> (#[trigger] items[i]).wf()
}

/// Whether each key and value of `entries` is well formed.
pub open spec fn all_entries_wf<'a>(entries: Seq<(ValueRef<'a>, ValueRef<'a>)>) -> bool {
    forall|i: int| 0 <= i < entries.len() ==> (#[trigger] entries[i]).0.wf() && entries[i].1.wf()
}

/// The model of an array of borrowed values is made of the models of its elements.
pub proof fn lemma_ref_array_model<'a>(items: Vec<ValueRef<'a>>)
    ensures
        ValueRef::Array(items).model() == ValueModel::Array(ref_models(items@)),
        ValueRef::Array(items).wf() == all_wf(items@),
{
    if let ValueModel::Array(m) = ValueRef::Array(items).model() {
        assert(m =~= ref_models(items@));
    }
}

/// The model of a map of borrowed values is made of the models of its keys and values.
pub proof fn lemma_ref_map_model<'a>(entries: Vec<(ValueRef<'a>, ValueRef<'a>)>)
    ensures
        ValueRef::Mapping(entries).model() == ValueModel::Mapping(ref_entry_models(entries@)),
        ValueRef::Mapping(entries).wf() == all_entries_wf(entries@),
{
    if let ValueModel::Mapping(m) = ValueRef::Mapping(entries).model() {
        assert(m =~= ref_entry_models(entries@));
    }
}

/// An owned string: its text if its bytes are valid UTF-8, else the raw bytes and the reason
/// they are not.
#[derive(Debug, PartialEq)]
pub struct Utf8String {
    pub(crate) s: Result<String, (Vec<u8>, core::str::Utf8Error)>,
}

impl Utf8String {
    /// The bytes of the string.
    pub closed spec fn bytes(&self) -> Seq<u8> {
        match self.s {
            Ok(s) => encode_utf8(s@),
            Err((b, _)) => b@,
        }
    }

    /// Whether the string holds text exactly when its bytes are valid UTF-8.
    pub closed spec fn wf(&self) -> bool {
        match self.s {
            Ok(_) => true,
            Err((b, _)) => !valid_utf8(b@),
        }
    }

    /// Whether the bytes are valid UTF-8.
    pub closed spec fn spec_is_str(&self) -> bool {
        self.s is Ok
    }

    /// The bytes of each representation.
    pub(crate) proof fn lemma_bytes(&self)
        ensures
            match self.s {
                Ok(t) => self.bytes() == encode_utf8(t@),
                Err((b, _)) => self.bytes() == b@,
            },
    {
    }

    /// The text of a `String`.
    pub fn from_string(s: String) -> (r: Utf8String)
        ensures
            r.bytes() == encode_utf8(s@),
            r.wf(),
            r.spec_is_str(),
    {
        Utf8String { s: Ok(s) }
    }

    /// A copy of the text of a string slice.
    pub fn from_str(s: &str) -> (r: Utf8String)
        ensures
            r.bytes() == encode_utf8(s@),
            r.wf(),
            r.spec_is_str(),
    {
        Utf8String { s: Ok(s.to_owned()) }
    }

    /// The string made of raw bytes: text if they are valid UTF-8, else the bytes as they
    /// are.
    pub fn from_bytes(bytes: Vec<u8>) -> (r: Utf8String)
        ensures
            r.bytes() == bytes@,
            r.wf(),
            r.spec_is_str() == valid_utf8(bytes@),
    {
        let checked = str_from_utf8(bytes.as_slice());
        match checked {
            Ok(text) => {
                proof {
                    decode_utf8_encode_utf8(bytes@);
                }
                Utf8String { s: Ok(text.to_owned()) }
            },
            Err(err) => Utf8String { s: Err((bytes, err)) },
        }
    }

    /// Returns `true` if the string holds valid UTF-8.
    pub fn is_str(&self) -> (b: bool)
        ensures
            b == self.spec_is_str(),
            self.wf() ==> (b == valid_utf8(self.bytes())),
    {
        proof {
            if let Ok(s) = &self.s {
                encode_utf8_valid_utf8(s@);
            }
        }
        self.s.is_ok()
    }

    /// Returns `true` if the string holds bytes that are not valid UTF-8.
    pub fn is_err(&self) -> (b: bool)
        ensures
            b == !self.spec_is_str(),
    {
        self.s.is_err()
    }

    /// The text, if the bytes are valid UTF-8.
    pub fn as_str(&self) -> (r: Option<&str>)
        ensures
            r is Some <==> self.spec_is_str(),
            r matches Some(s) ==> encode_utf8(s@) == self.bytes(),
    {
        match &self.s {
            Ok(s) => Some(s.as_str()),
            Err(_) => None,
        }
    }

    /// The raw bytes of the string.
    pub fn as_bytes(&self) -> (r: &[u8])
        ensures
            r@ == self.bytes(),
    {
        match &self.s {
            Ok(s) => s.as_str().as_bytes(),
            Err((b, _)) => b.as_slice(),
        }
    }
}

impl<'a> Utf8StringRef<'a> {
    /// An owned copy of the string.
    pub fn to_owned_string(&self) -> (r: Utf8String)
        ensures
            r.bytes() == self.bytes(),
            r.spec_is_str() == self.spec_is_str(),
            self.wf() ==> r.wf(),
    {
        match self.s {
            Ok(s) => Utf8String { s: Ok(s.to_owned()) },
            Err((b, e)) => Utf8String { s: Err((slice_to_vec(b), e)) },
        }
    }
}

/// `core::str::from_utf8`: succeeds exactly when the bytes are valid UTF-8, and then gives
/// the characters that they encode.
#[verifier::external_body]
pub(crate) fn str_from_utf8(v: &[u8]) -> (r: Result<&str, core::str::Utf8Error>)
    ensures
        r is Ok <==> valid_utf8(v@),
        r matches Ok(s) ==> s@ == decode_utf8(v@),
{
    core::str::from_utf8(v)
}

/// An owned MessagePack value.
#[derive(Debug, PartialEq)]
pub enum Value {
    Nil,
    Boolean(bool),
    Integer(Integer),
    /// The IEEE-754 bits of a single-precision float.
    F32(u32),
    /// The IEEE-754 bits of a double-precision float.
    F64(u64),
    String(Utf8String),
    Binary(Vec<u8>),
    Array(Vec<Value>),
    Mapping(Vec<(Value, Value)>),
    Ext(i8, Vec<u8>),
}

impl Value {
    /// What the value stands for.
    pub open spec fn model(&self) -> ValueModel
        decreases self,
    {
        match self {
            Value::Nil => ValueModel::Nil,
            Value::Boolean(b) => ValueModel::Boolean(*b),
            Value::Integer(i) => ValueModel::Integer(i.value()),
            Value::F32(b) => ValueModel::F32(*b),
            Value::F64(b) => ValueModel::F64(*b),
            Value::String(s) => ValueModel::String(s.bytes()),
            Value::Binary(b) => ValueModel::Binary(b@),
            Value::Array(items) => ValueModel::Array(
                Seq::new(
                    items@.len(),
                    |i: int|
                        if 0 <= i < items@.len() {
                            items@[i].model()
                        } else {
                            ValueModel::Nil
                        },
                ),
            ),
            Value::Mapping(entries) => ValueModel::Mapping(
                Seq::new(
                    entries@.len(),
                    |i: int|
                        if 0 <= i < entries@.len() {
                            (entries@[i].0.model(), entries@[i].1.model())
                        } else {
                            (ValueModel::Nil, ValueModel::Nil)
                        },
                ),
            ),
            Value::Ext(ty, b) => ValueModel::Ext(*ty, b@),
        }
    }

    /// Whether every integer in the value is in its canonical form and every string holds
    /// text exactly when its bytes are valid UTF-8.
    pub open spec fn wf(&self) -> bool
        decreases self,
    {
        match self {
            Value::Integer(i) => i.wf(),
            Value::String(s) => s.wf(),
            Value::Array(items) => forall|i: int|
                0 <= i < items@.len() ==> (#[trigger] items@[i]).wf(),
            Value::Mapping(entries) => forall|i: int|
                0 <= i < entries@.len() ==> (#[trigger] entries@[i]).0.wf() && entries@[i].1.wf(),
            _ => true,
        }
    }
}

/// The models of a sequence of owned values.
pub open spec fn models(items: Seq<Value>) -> Seq<ValueModel> {
    Seq::new(items.len(), |i: int| items[i].model())
}

/// The models of a sequence of owned key-value entries.
pub open spec fn entry_models(entries: Seq<(Value, Value)>) -> Seq<(ValueModel, ValueModel)> {
    Seq::new(entries.len(), |i: int| (entries[i].0.model(), entries[i].1.model()))
}

/// Whether each of `items` is well formed.
pub open spec fn values_wf(items: Seq<Value>) -> bool {
    forall|i: int| 0 <= i < items.len() ==> (#[trigger] items[i]).wf()
}

/// Whether each key and value of `entries` is well formed.
pub open spec fn entries_wf(entries: Seq<(Value, Value)>) -> bool {
    forall|i: int| 0 <= i < entries.len() ==> (#[trigger] entries[i]).0.wf() && entries[i].1.wf()
}

/// The model of an array of owned values is made of the models of its elements.
pub proof fn lemma_array_model(items: Vec<Value>)
    ensures
        Value::Array(items).model() == ValueModel::Array(models(items@)),
        Value::Array(items).wf() == values_wf(items@),
{
    if let ValueModel::Array(m) = Value::Array(items).model() {
        assert(m =~= models(items@));
    }
}

/// The model of a map of owned values is made of the models of its keys and values.
pub proof fn lemma_map_model(entries: Vec<(Value, Value)>)
    ensures
        Value::Mapping(entries).model() == ValueModel::Mapping(entry_models(entries@)),
        Value::Mapping(entries).wf() == entries_wf(entries@),
{
    if let ValueModel::Mapping(m) = Value::Mapping(entries).model() {
        assert(m =~= entry_models(entries@));
    }
}

impl<'a> ValueRef<'a> {
    /// An owned copy of the value.
    pub fn to_owned(&self) -> (r: Value)
        ensures
            r.model() == self.model(),
            self.wf() ==> r.wf(),
        decreases self,
    {
        match self {
            ValueRef::Nil => Value::Nil,
            ValueRef::Boolean(b) => Value::Boolean(*b),
            ValueRef::Integer(i) => Value::Integer(*i),
            ValueRef::F32(b) => Value::F32(*b),
            ValueRef::F64(b) => Value::F64(*b),
            ValueRef::String(s) => Value::String(s.to_owned_string()),
            ValueRef::Binary(b) => Value::Binary(slice_to_vec(b)),
            ValueRef::Array(items) => {
                let mut out: Vec<Value> = Vec::new();
                let mut i: usize = 0;
                while i < items.len()
                    invariant
                        *self == ValueRef::Array(*items),
                        i <= items@.len(),
                        out@.len() == i,
                        forall|j: int| 0 <= j < i ==> (#[trigger] out@[j]).model() == items@[j].model(),
                        forall|j: int| 0 <= j < i ==> items@[j].wf() ==> (#[trigger] out@[j]).wf(),
                    decreases items@.len() - i,
                {
                    proof {
                        assert(decreases_to!(*self => (*self)->Array_0));
                        assert(decreases_to!(*items => items@));
                        assert(decreases_to!(items@ => items@[i as int]));
                        assert(decreases_to!(*self => items@[i as int]));
                    }
                    out.push(items[i].to_owned());
                    i = i + 1;
                }
                proof {
                    lemma_array_model(out);
                    lemma_ref_array_model(*items);
                    assert(models(out@) =~= ref_models(items@));
                }
                Value::Array(out)
            },
            ValueRef::Mapping(entries) => {
                let mut out: Vec<(Value, Value)> = Vec::new();
                let mut i: usize = 0;
                while i < entries.len()
                    invariant
                        *self == ValueRef::Mapping(*entries),
                        i <= entries@.len(),
                        out@.len() == i,
                        forall|j: int|
                            0 <= j < i ==> (#[trigger] out@[j]).0.model() == entries@[j].0.model()
                                && out@[j].1.model() == entries@[j].1.model(),
                        forall|j: int|
                            0 <= j < i ==> entries@[j].0.wf() && entries@[j].1.wf() ==> (
                            #[trigger] out@[j]).0.wf() && out@[j].1.wf(),
                    decreases entries@.len() - i,
                {
                    proof {
                        assert(decreases_to!(*self => (*self)->Mapping_0));
                        assert(decreases_to!(*entries => entries@));
                        assert(decreases_to!(entries@ => entries@[i as int]));
                        assert(decreases_to!(entries@[i as int] => entries@[i as int].0));
                        assert(decreases_to!(entries@[i as int] => entries@[i as int].1));
                        assert(decreases_to!(*self => entries@[i as int].0));
                        assert(decreases_to!(*self => entries@[i as int].1));
                    }
                    let k = entries[i].0.to_owned();
                    let v = entries[i].1.to_owned();
                    out.push((k, v));
                    i = i + 1;
                }
                proof {
                    lemma_map_model(out);
                    lemma_ref_map_model(*entries);
                    assert(entry_models(out@) =~= ref_entry_models(entries@));
                }
                Value::Mapping(out)
            },
            ValueRef::Ext(ty, b) => Value::Ext(*ty, slice_to_vec(b)),
        }
    }
}

impl Value {
    /// The integer `n`.
    pub fn from_i64(n: i64) -> (r: Value)
        ensures
            r.model() == ValueModel::Integer(n as int),
            r.wf(),
    {
        Value::Integer(Integer::from_i64(n))
    }

    /// The integer `n`.
    pub fn from_u64(n: u64) -> (r: Value)
        ensures
            r.model() == ValueModel::Integer(n as int),
            r.wf(),
    {
        Value::Integer(Integer::from_u64(n))
    }

    /// A string holding a copy of the text `s`.
    pub fn from_str(s: &str) -> (r: Value)
        ensures
            r.model() == ValueModel::String(encode_utf8(s@)),
            r.wf(),
    {
        Value::String(Utf8String::from_str(s))
    }
}

impl From<i64> for Value {
    /// The integer `n`.
    fn from(n: i64) -> (r: Value)
        ensures
            r.model() == ValueModel::Integer(n as int),
            r.wf(),
    {
        Value::from_i64(n)
    }
}

impl vstd::std_specs::convert::FromSpecImpl<i64> for Value {
    open spec fn obeys_from_spec() -> bool {
        true
    }

    closed spec fn from_spec(n: i64) -> Value {
        if n < 0 {
            Value::Integer(Integer { n: IntPriv::NegInt(n) })
        } else {
            Value::Integer(Integer { n: IntPriv::PosInt(n as u64) })
        }
    }
}

impl From<i32> for Value {
    /// The integer `n`.
    fn from(n: i32) -> (r: Value)
        ensures
            r.model() == ValueModel::Integer(n as int),
            r.wf(),
    {
        Value::from_i64(n as i64)
    }
}

impl vstd::std_specs::convert::FromSpecImpl<i32> for Value {
    open spec fn obeys_from_spec() -> bool {
        true
    }

    closed spec fn from_spec(n: i32) -> Value {
        if n < 0 {
            Value::Integer(Integer { n: IntPriv::NegInt(n as i64) })
        } else {
            Value::Integer(Integer { n: IntPriv::PosInt(n as u64) })
        }
    }
}

impl From<u64> for Value {
    /// The integer `n`.
    fn from(n: u64) -> (r: Value)
        ensures
            r.model() == ValueModel::Integer(n as int),
            r.wf(),
    {
        Value::from_u64(n)
    }
}

impl vstd::std_specs::convert::FromSpecImpl<u64> for Value {
    open spec fn obeys_from_spec() -> bool {
        true
    }

    closed spec fn from_spec(n: u64) -> Value {
        Value::Integer(Integer { n: IntPriv::PosInt(n) })
    }
}

impl From<bool> for Value {
    /// The boolean `b`.
    fn from(b: bool) -> (r: Value)
        ensures
            r.model() == ValueModel::Boolean(b),
    {
        Value::Boolean(b)
    }
}

impl vstd::std_specs::convert::FromSpecImpl<bool> for Value {
    open spec fn obeys_from_spec() -> bool {
        true
    }

    open spec fn from_spec(b: bool) -> Value {
        Value::Boolean(b)
    }
}

/// A value built from a Rust integer or boolean stands for that integer or boolean itself,
/// whatever its sign or size: nothing is cut or changed on the way in.
pub proof fn lemma_from_scalars(a: i64, b: i32, c: u64, d: bool)
    ensures
        <Value as vstd::std_specs::convert::FromSpec<i64>>::from_spec(a).model()
            == ValueModel::Integer(a as int),
        <Value as vstd::std_specs::convert::FromSpec<i32>>::from_spec(b).model()
            == ValueModel::Integer(b as int),
        <Value as vstd::std_specs::convert::FromSpec<u64>>::from_spec(c).model()
            == ValueModel::Integer(c as int),
        <Value as vstd::std_specs::convert::FromSpec<bool>>::from_spec(d).model()
            == ValueModel::Boolean(d),
        <Value as vstd::std_specs::convert::FromSpec<i64>>::from_spec(a).wf(),
        <Value as vstd::std_specs::convert::FromSpec<i32>>::from_spec(b).wf(),
        <Value as vstd::std_specs::convert::FromSpec<u64>>::from_spec(c).wf(),
{
}

impl Clone for Utf8String {
    /// A copy of the string.
    fn clone(&self) -> (r: Self)
        ensures
            r.bytes() == self.bytes(),
            r.spec_is_str() == self.spec_is_str(),
            r.wf() == self.wf(),
    {
        match &self.s {
            Ok(t) => Utf8String { s: Ok(t.clone()) },
            Err((b, e)) => Utf8String { s: Err((slice_to_vec(b.as_slice()), *e)) },
        }
    }
}

impl Clone for Value {
    /// A copy of the value.
    fn clone(&self) -> (r: Self)
        ensures
            r.model() == self.model(),
            r.wf() == self.wf(),
        decreases self,
    {
        match self {
            Value::Nil => Value::Nil,
            Value::Boolean(b) => Value::Boolean(*b),
            Value::Integer(i) => Value::Integer(*i),
            Value::F32(b) => Value::F32(*b),
            Value::F64(b) => Value::F64(*b),
            Value::String(s) => Value::String(s.clone()),
            Value::Binary(b) => Value::Binary(slice_to_vec(b.as_slice())),
            Value::Array(items) => {
                let mut out: Vec<Value> = Vec::new();
                let mut i: usize = 0;
                while i < items.len()
                    invariant
                        *self == Value::Array(*items),
                        i <= items@.len(),
                        out@.len() == i,
                        forall|j: int| 0 <= j < i ==> (#[trigger] out@[j]).model() == items@[j].model(),
                        forall|j: int| 0 <= j < i ==> (#[trigger] out@[j]).wf() == items@[j].wf(),
                    decreases items@.len() - i,
                {
                    proof {
                        assert(decreases_to!(*self => (*self)->Array_0));
                        assert(decreases_to!(*items => items@));
                        assert(decreases_to!(items@ => items@[i as int]));
                    }
                    out.push(items[i].clone());
                    i = i + 1;
                }
                proof {
                    lemma_array_model(out);
                    lemma_array_model(*items);
                    assert(models(out@) =~= models(items@));
                    if values_wf(items@) {
                        assert forall|j: int| 0 <= j < out@.len() implies (#[trigger] out@[j]).wf() by {
                            assert(items@[j].wf());
                        }
                    }
                    if values_wf(out@) {
                        assert forall|j: int| 0 <= j < items@.len() implies (#[trigger] items@[j]).wf() by {
                            assert(out@[j].wf());
                        }
                    }
                }
                Value::Array(out)
            },
            Value::Mapping(entries) => {
                let mut out: Vec<(Value, Value)> = Vec::new();
                let mut i: usize = 0;
                while i < entries.len()
                    invariant
                        *self == Value::Mapping(*entries),
                        i <= entries@.len(),
                        out@.len() == i,
                        forall|j: int|
                            0 <= j < i ==> (#[trigger] out@[j]).0.model() == entries@[j].0.model()
                                && out@[j].1.model() == entries@[j].1.model(),
                        forall|j: int|
                            0 <= j < i ==> (#[trigger] out@[j]).0.wf() == entries@[j].0.wf()
                                && out@[j].1.wf() == entries@[j].1.wf(),
                    decreases entries@.len() - i,
                {
                    proof {
                        assert(decreases_to!(*self => (*self)->Mapping_0));
                        assert(decreases_to!(*entries => entries@));
                        assert(decreases_to!(entries@ => entries@[i as int]));
                        assert(decreases_to!(entries@[i as int] => entries@[i as int].0));
                        assert(decreases_to!(entries@[i as int] => entries@[i as int].1));
                    }
                    let k = entries[i].0.clone();
                    let v = entries[i].1.clone();
                    out.push((k, v));
                    i = i + 1;
                }
                proof {
                    lemma_map_model(out);
                    lemma_map_model(*entries);
                    assert(entry_models(out@) =~= entry_models(entries@));
                    if entries_wf(entries@) {
                        assert forall|j: int| 0 <= j < out@.len() implies (#[trigger] out@[j]).0.wf()
                            && out@[j].1.wf() by {
                            assert(entries@[j].0.wf() && entries@[j].1.wf());
                        }
                    }
                    if entries_wf(out@) {
                        assert forall|j: int| 0 <= j < entries@.len() implies (
                        #[trigger] entries@[j]).0.wf() && entries@[j].1.wf() by {
                            assert(out@[j].0.wf() && out@[j].1.wf());
                        }
                    }
                }
                Value::Mapping(out)
            },
            Value::Ext(ty, b) => Value::Ext(*ty, slice_to_vec(b.as_slice())),
        }
    }
}

impl<'a> Clone for ValueRef<'a> {
    /// A copy of the value.
    fn clone(&self) -> (r: Self)
        ensures
            r.model() == self.model(),
            r.wf() == self.wf(),
        decreases self,
    {
        match self {
            ValueRef::Nil => ValueRef::Nil,
            ValueRef::Boolean(b) => ValueRef::Boolean(*b),
            ValueRef::Integer(i) => ValueRef::Integer(*i),
            ValueRef::F32(b) => ValueRef::F32(*b),
            ValueRef::F64(b) => ValueRef::F64(*b),
            ValueRef::String(s) => ValueRef::String(*s),
            ValueRef::Binary(b) => ValueRef::Binary(*b),
            ValueRef::Array(items) => {
                let mut out: Vec<ValueRef<'a>> = Vec::new();
                let mut i: usize = 0;
                while i < items.len()
                    invariant
                        *self == ValueRef::Array(*items),
                        i <= items@.len(),
                        out@.len() == i,
                        forall|j: int| 0 <= j < i ==> (#[trigger] out@[j]).model() == items@[j].model(),
                        forall|j: int| 0 <= j < i ==> (#[trigger] out@[j]).wf() == items@[j].wf(),
                    decreases items@.len() - i,
                {
                    proof {
                        assert(decreases_to!(*self => (*self)->Array_0));
                        assert(decreases_to!(*items => items@));
                        assert(decreases_to!(items@ => items@[i as int]));
                    }
                    out.push(items[i].clone());
                    i = i + 1;
                }
                proof {
                    lemma_ref_array_model(out);
                    lemma_ref_array_model(*items);
                    assert(ref_models(out@) =~= ref_models(items@));
                    if all_wf(items@) {
                        assert forall|j: int| 0 <= j < out@.len() implies (#[trigger] out@[j]).wf() by {
                            assert(items@[j].wf());
                        }
                    }
                    if all_wf(out@) {
                        assert forall|j: int| 0 <= j < items@.len() implies (#[trigger] items@[j]).wf() by {
                            assert(out@[j].wf());
                        }
                    }
                }
                ValueRef::Array(out)
            },
            ValueRef::Mapping(entries) => {
                let mut out: Vec<(ValueRef<'a>, ValueRef<'a>)> = Vec::new();
                let mut i: usize = 0;
                while i < entries.len()
                    invariant
                        *self == ValueRef::Mapping(*entries),
                        i <= entries@.len(),
                        out@.len() == i,
                        forall|j: int|
                            0 <= j < i ==> (#[trigger] out@[j]).0.model() == entries@[j].0.model()
                                && out@[j].1.model() == entries@[j].1.model(),
                        forall|j: int|
                            0 <= j < i ==> (#[trigger] out@[j]).0.wf() == entries@[j].0.wf()
                                && out@[j].1.wf() == entries@[j].1.wf(),
                    decreases entries@.len() - i,
                {
                    proof {
                        assert(decreases_to!(*self => (*self)->Mapping_0));
                        assert(decreases_to!(*entries => entries@));
                        assert(decreases_to!(entries@ => entries@[i as int]));
                        assert(decreases_to!(entries@[i as int] => entries@[i as int].0));
                        assert(decreases_to!(entries@[i as int] => entries@[i as int].1));
                    }
                    let k = entries[i].0.clone();
                    let v = entries[i].1.clone();
                    out.push((k, v));
                    i = i + 1;
                }
                proof {
                    lemma_ref_map_model(out);
                    lemma_ref_map_model(*entries);
                    assert(ref_entry_models(out@) =~= ref_entry_models(entries@));
                    if all_entries_wf(entries@) {
                        assert forall|j: int| 0 <= j < out@.len() implies (#[trigger] out@[j]).0.wf()
                            && out@[j].1.wf() by {
                            assert(entries@[j].0.wf() && entries@[j].1.wf());
                        }
                    }
                    if all_entries_wf(out@) {
                        assert forall|j: int| 0 <= j < entries@.len() implies (
                        #[trigger] entries@[j]).0.wf() && entries@[j].1.wf() by {
                            assert(out@[j].0.wf() && out@[j].1.wf());
                        }
                    }
                }
                ValueRef::Mapping(out)
            },
            ValueRef::Ext(ty, b) => ValueRef::Ext(*ty, *b),
        }
    }
}

} // verus!
