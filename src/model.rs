//! The value model: executable values and shapes, and the mathematical
//! values that contracts speak of.
use vstd::prelude::*;

verus! {

/// Whether a byte sequence is well-formed UTF-8, as std's `from_utf8` decides.
pub uninterp spec fn utf8_valid(b: Seq<u8>) -> bool;

/// Relies on `std::str::from_utf8`: whether it accepts the bytes depends on
/// the bytes alone.
#[verifier::external_body]
pub(crate) fn check_utf8(b: &[u8]) -> (r: bool)
    ensures
        r == utf8_valid(b@),
{
    std::str::from_utf8(b).is_ok()
}

/// A value as contracts see it: collections are sequences.
pub enum Val {
    U8(u8),
    U16(u16),
    U32(u32),
    U64(u64),
    I8(i8),
    I16(i16),
    I32(i32),
    I64(i64),
    F32(u32),
    F64(u64),
    Bool(bool),
    Text(Seq<u8>),
    Array(Seq<Val>),
    Sequence(Seq<Val>),
    Tuple(Seq<Val>),
    Record(Seq<Val>),
    Dict(Seq<(Val, Val)>),
    Opt(Option<Box<Val>>),
    Enum(u32, Box<Val>),
}

/// A value of the codec. Floats are carried as their raw IEEE-754 bits, text
/// as its UTF-8 bytes.
#[derive(Debug, PartialEq)]
pub enum Value {
    U8(u8),
    U16(u16),
    U32(u32),
    U64(u64),
    I8(i8),
    I16(i16),
    I32(i32),
    I64(i64),
    /// The bit pattern of an `f32`.
    F32(u32),
    /// The bit pattern of an `f64`.
    F64(u64),
    Bool(bool),
    /// UTF-8 bytes.
    Text(Vec<u8>),
    /// A fixed number of elements of one shape; the count is not encoded.
    Array(Vec<Value>),
    /// A length-prefixed run of elements of one shape.
    Sequence(Vec<Value>),
    /// Heterogeneous fields in declared order; the arity is not encoded.
    Tuple(Vec<Value>),
    /// Named fields in declared order; names are not encoded.
    Record(Vec<Value>),
    /// Key/value pairs in iteration order, encoded as a sequence of pairs.
    Dict(Vec<(Value, Value)>),
    Opt(Option<Box<Value>>),
    /// The variant at ordinal `index` of its enum, with its payload (an empty
    /// tuple for a unit variant, a record for one with named fields).
    Enum { index: u32, payload: Box<Value> },
}

/// The statically known structure of a value, shared by encoder and decoder.
#[derive(Debug, PartialEq)]
pub enum Shape {
    U8,
    U16,
    U32,
    U64,
    I8,
    I16,
    I32,
    I64,
    F32,
    F64,
    Bool,
    Text,
    /// Element shape and element count.
    Array(Box<Shape>, usize),
    Sequence(Box<Shape>),
    Tuple(Vec<Shape>),
    Record(Vec<Shape>),
    /// Key shape and value shape.
    Dict(Box<Shape>, Box<Shape>),
    Opt(Box<Shape>),
    /// The payload shape of each variant, in declared order.
    Enum(Vec<Shape>),
}

impl Value {
    pub open spec fn model(self) -> Val
        decreases self,
    {
        match self {
            Value::U8(x) => Val::U8(x),
            Value::U16(x) => Val::U16(x),
            Value::U32(x) => Val::U32(x),
            Value::U64(x) => Val::U64(x),
            Value::I8(x) => Val::I8(x),
            Value::I16(x) => Val::I16(x),
            Value::I32(x) => Val::I32(x),
            Value::I64(x) => Val::I64(x),
            Value::F32(x) => Val::F32(x),
            Value::F64(x) => Val::F64(x),
            Value::Bool(x) => Val::Bool(x),
            Value::Text(b) => Val::Text(b@),
            Value::Array(vs) => Val::Array(models(vs@)),
            Value::Sequence(vs) => Val::Sequence(models(vs@)),
            Value::Tuple(vs) => Val::Tuple(models(vs@)),
            Value::Record(vs) => Val::Record(models(vs@)),
            Value::Dict(ps) => Val::Dict(pair_models(ps@)),
            Value::Opt(o) => match o {
                Some(x) => Val::Opt(Some(Box::new((*x).model()))),
                None => Val::Opt(None),
            },
            Value::Enum { index, payload } => Val::Enum(index, Box::new((*payload).model())),
        }
    }
}

pub open spec fn models(vs: Seq<Value>) -> Seq<Val>
    decreases vs,
{
    if vs.len() == 0 {
        Seq::empty()
    } else {
        seq![vs[0].model()] + models(vs.subrange(1, vs.len() as int))
    }
}

pub open spec fn pair_models(ps: Seq<(Value, Value)>) -> Seq<(Val, Val)>
    decreases ps,
{
    if ps.len() == 0 {
        Seq::empty()
    } else {
        seq![(ps[0].0.model(), ps[0].1.model())] + pair_models(ps.subrange(1, ps.len() as int))
    }
}

pub proof fn lemma_models(vs: Seq<Value>)
    ensures
        models(vs).len() == vs.len(),
        forall|i: int| 0 <= i < vs.len() ==> #[trigger] models(vs)[i] == vs[i].model(),
    decreases vs.len(),
{
    if vs.len() > 0 {
        lemma_models(vs.subrange(1, vs.len() as int));
    }
}

pub proof fn lemma_pair_models(ps: Seq<(Value, Value)>)
    ensures
        pair_models(ps).len() == ps.len(),
        forall|i: int|
            0 <= i < ps.len() ==> #[trigger] pair_models(ps)[i] == (ps[i].0.model(), ps[i].1.model()),
    decreases ps.len(),
{
    if ps.len() > 0 {
        lemma_pair_models(ps.subrange(1, ps.len() as int));
    }
}

pub proof fn lemma_models_push(vs: Seq<Value>, x: Value)
    ensures
        models(vs.push(x)) == models(vs).push(x.model()),
{
    lemma_models(vs);
    lemma_models(vs.push(x));
    assert(models(vs.push(x)) =~= models(vs).push(x.model()));
}

pub proof fn lemma_pair_models_push(ps: Seq<(Value, Value)>, x: (Value, Value))
    ensures
        pair_models(ps.push(x)) == pair_models(ps).push((x.0.model(), x.1.model())),
{
    lemma_pair_models(ps);
    lemma_pair_models(ps.push(x));
    assert(pair_models(ps.push(x)) =~= pair_models(ps).push((x.0.model(), x.1.model())));
}

/// Whether `v` has shape `s` and can be encoded: text is UTF-8, lengths fit
/// the 8-byte length field, enum ordinals name a declared variant.
pub open spec fn conforms(v: Val, s: Shape) -> bool
    decreases s,
{
    match s {
        Shape::U8 => v is U8,
        Shape::U16 => v is U16,
        Shape::U32 => v is U32,
        Shape::U64 => v is U64,
        Shape::I8 => v is I8,
        Shape::I16 => v is I16,
        Shape::I32 => v is I32,
        Shape::I64 => v is I64,
        Shape::F32 => v is F32,
        Shape::F64 => v is F64,
        Shape::Bool => v is Bool,
        Shape::Text => match v {
            Val::Text(b) => b.len() <= u64::MAX && utf8_valid(b),
            _ => false,
        },
        Shape::Array(e, n) => match v {
            Val::Array(vs) => vs.len() == n && forall|i: int|
                0 <= i < vs.len() ==> conforms(#[trigger] vs[i], *e),
            _ => false,
        },
        Shape::Sequence(e) => match v {
            Val::Sequence(vs) => vs.len() <= u64::MAX && forall|i: int|
                0 <= i < vs.len() ==> conforms(#[trigger] vs[i], *e),
            _ => false,
        },
        Shape::Tuple(fs) => match v {
            Val::Tuple(vs) => fields_conform(vs, fs@),
            _ => false,
        },
        Shape::Record(fs) => match v {
            Val::Record(vs) => fields_conform(vs, fs@),
            _ => false,
        },
        Shape::Dict(k, e) => match v {
            Val::Dict(ps) => ps.len() <= u64::MAX && forall|i: int|
                0 <= i < ps.len() ==> conforms(#[trigger] ps[i].0, *k) && conforms(ps[i].1, *e),
            _ => false,
        },
        Shape::Opt(e) => match v {
            Val::Opt(o) => match o {
                Some(x) => conforms(*x, *e),
                None => true,
            },
            _ => false,
        },
        Shape::Enum(vs) => match v {
            Val::Enum(i, x) => i < vs@.len() && conforms(*x, vs@[i as int]),
            _ => false,
        },
    }
}

/// Whether each value conforms to the shape at its position.
pub open spec fn fields_conform(vs: Seq<Val>, fs: Seq<Shape>) -> bool
    decreases fs,
{
    if fs.len() == 0 {
        vs.len() == 0
    } else {
        vs.len() > 0 && conforms(vs[0], fs[0]) && fields_conform(
            vs.subrange(1, vs.len() as int),
            fs.subrange(1, fs.len() as int),
        )
    }
}

} // verus!
