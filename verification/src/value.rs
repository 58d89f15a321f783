//! The typed values the codec carries, and the shapes that drive decoding.
//!
//! A [`Value`] is what an encoder consumes and a decoder produces. Floats
//! travel as their raw bit patterns, text as its bytes: the wire format
//! treats both exactly like the same-width unsigned integer or byte buffer.
//! A [`Shape`] describes the statically known layout of the value a decoder
//! is asked to rebuild; decoding is impossible without it, since the wire
//! format is not self-describing.

use vstd::prelude::*;

verus! {

/// One typed value of the data model.
#[derive(Debug, PartialEq)]
pub enum Value {
    Bool(bool),
    U8(u8),
    U16(u16),
    U32(u32),
    U64(u64),
    U128(u128),
    I8(i8),
    I16(i16),
    I32(i32),
    I64(i64),
    I128(i128),
    /// A 32-bit float, carried as its raw bit pattern.
    F32Bits(u32),
    /// A 64-bit float, carried as its raw bit pattern.
    F64Bits(u64),
    Char(char),
    /// Text, carried as its UTF-8 bytes.
    Text(Vec<u8>),
    /// An opaque byte buffer.
    Bytes(Vec<u8>),
    /// An optional value.
    Opt(Option<Box<Value>>),
    /// A unit-like marker; contributes nothing to the wire format.
    Unit,
    /// A sequence with a known element count.
    List(Vec<Value>),
    /// A fixed aggregate: a tuple, a struct, a fixed-size array.
    Tuple(Vec<Value>),
    /// A map with a known entry count, entries in write order.
    Dict(Vec<(Value, Value)>),
    /// A tagged-union variant: index, whether its payload opens a scope
    /// (payload-less and newtype variants do not), and the payload.
    Variant(u32, bool, Vec<Value>),
}

/// One variant of a tagged union's shape.
#[derive(Debug, PartialEq)]
pub struct VariantShape {
    /// Whether the payload is wrapped in a scope of its own.
    pub scoped: bool,
    pub fields: Vec<Shape>,
}

/// The statically known layout of a value, as a decoder needs it.
#[derive(Debug, PartialEq)]
pub enum Shape {
    Bool,
    U8,
    U16,
    U32,
    U64,
    U128,
    I8,
    I16,
    I32,
    I64,
    I128,
    F32,
    F64,
    Char,
    Text,
    Bytes,
    Opt(Box<Shape>),
    Unit,
    List(Box<Shape>),
    Tuple(Vec<Shape>),
    Dict(Box<Shape>, Box<Shape>),
    Enum(Vec<VariantShape>),
}

/// The mathematical image of a [`Value`], with sequences in place of
/// vectors; the decoder's specification is stated over these.
pub ghost enum SpecVal {
    Bool(bool),
    U8(u8),
    U16(u16),
    U32(u32),
    U64(u64),
    U128(u128),
    I8(i8),
    I16(i16),
    I32(i32),
    I64(i64),
    I128(i128),
    F32Bits(u32),
    F64Bits(u64),
    Char(char),
    Text(Seq<u8>),
    Bytes(Seq<u8>),
    Opt(Option<Box<SpecVal>>),
    Unit,
    List(Seq<SpecVal>),
    Tuple(Seq<SpecVal>),
    Dict(Seq<(SpecVal, SpecVal)>),
    Variant(u32, bool, Seq<SpecVal>),
}

/// The mathematical image of a value.
pub open spec fn view_value(v: Value) -> SpecVal
    decreases v,
{
    match v {
        Value::Bool(b) => SpecVal::Bool(b),
        Value::U8(x) => SpecVal::U8(x),
        Value::U16(x) => SpecVal::U16(x),
        Value::U32(x) => SpecVal::U32(x),
        Value::U64(x) => SpecVal::U64(x),
        Value::U128(x) => SpecVal::U128(x),
        Value::I8(x) => SpecVal::I8(x),
        Value::I16(x) => SpecVal::I16(x),
        Value::I32(x) => SpecVal::I32(x),
        Value::I64(x) => SpecVal::I64(x),
        Value::I128(x) => SpecVal::I128(x),
        Value::F32Bits(x) => SpecVal::F32Bits(x),
        Value::F64Bits(x) => SpecVal::F64Bits(x),
        Value::Char(c) => SpecVal::Char(c),
        Value::Text(bs) => SpecVal::Text(bs@),
        Value::Bytes(bs) => SpecVal::Bytes(bs@),
        Value::Opt(o) => match o {
            Option::None => SpecVal::Opt(Option::None),
            Option::Some(b) => SpecVal::Opt(Option::Some(Box::new(view_value(*b)))),
        },
        Value::Unit => SpecVal::Unit,
        Value::List(vs) => SpecVal::List(view_list(vs@)),
        Value::Tuple(vs) => SpecVal::Tuple(view_list(vs@)),
        Value::Dict(ps) => SpecVal::Dict(view_pairs(ps@)),
        Value::Variant(idx, scoped, fs) => SpecVal::Variant(idx, scoped, view_list(fs@)),
    }
}

pub open spec fn view_list(vs: Seq<Value>) -> Seq<SpecVal>
    decreases vs,
{
    if vs.len() == 0 {
        Seq::empty()
    } else {
        seq![view_value(vs[0])] + view_list(vs.drop_first())
    }
}

pub open spec fn view_pairs(ps: Seq<(Value, Value)>) -> Seq<(SpecVal, SpecVal)>
    decreases ps,
{
    if ps.len() == 0 {
        Seq::empty()
    } else {
        seq![(view_value(ps[0].0), view_value(ps[0].1))] + view_pairs(ps.drop_first())
    }
}

pub proof fn lemma_view_list(vs: Seq<Value>)
    ensures
        view_list(vs).len() == vs.len(),
        forall|i: int| 0 <= i < vs.len() ==> view_list(vs)[i] == view_value(vs[i]),
    decreases vs,
{
    if vs.len() > 0 {
        lemma_view_list(vs.drop_first());
    }
}

pub proof fn lemma_view_pairs(ps: Seq<(Value, Value)>)
    ensures
        view_pairs(ps).len() == ps.len(),
        forall|i: int| 0 <= i < ps.len() ==> view_pairs(ps)[i]
            == (view_value(ps[i].0), view_value(ps[i].1)),
    decreases ps,
{
    if ps.len() > 0 {
        lemma_view_pairs(ps.drop_first());
    }
}

/// Encodability: every declared count fits the count word.
pub open spec fn wf_value(v: Value) -> bool
    decreases v,
{
    match v {
        Value::Text(bs) => bs@.len() <= u32::MAX,
        Value::Bytes(bs) => bs@.len() <= u32::MAX,
        Value::Opt(o) => match o {
            Option::None => true,
            Option::Some(b) => wf_value(*b),
        },
        Value::List(vs) => vs@.len() <= u32::MAX && wf_list(vs@),
        Value::Tuple(vs) => wf_list(vs@),
        Value::Dict(ps) => ps@.len() <= u32::MAX && wf_pairs(ps@),
        Value::Variant(_idx, _scoped, fs) => wf_list(fs@),
        _ => true,
    }
}

pub open spec fn wf_list(vs: Seq<Value>) -> bool
    decreases vs,
{
    if vs.len() == 0 {
        true
    } else {
        wf_value(vs[0]) && wf_list(vs.drop_first())
    }
}

pub open spec fn wf_pairs(ps: Seq<(Value, Value)>) -> bool
    decreases ps,
{
    if ps.len() == 0 {
        true
    } else {
        wf_value(ps[0].0) && wf_value(ps[0].1) && wf_pairs(ps.drop_first())
    }
}

pub proof fn lemma_wf_list_at(vs: Seq<Value>, i: int)
    requires
        wf_list(vs),
        0 <= i < vs.len(),
    ensures
        wf_value(vs[i]),
    decreases vs,
{
    if i > 0 {
        lemma_wf_list_at(vs.drop_first(), i - 1);
    }
}

pub proof fn lemma_wf_pairs_at(ps: Seq<(Value, Value)>, i: int)
    requires
        wf_pairs(ps),
        0 <= i < ps.len(),
    ensures
        wf_value(ps[i].0),
        wf_value(ps[i].1),
    decreases ps,
{
    if i > 0 {
        lemma_wf_pairs_at(ps.drop_first(), i - 1);
    }
}

/// How many scopes encoding `v` opens above the current one.
pub open spec fn vheight(v: Value) -> nat
    decreases v,
{
    match v {
        Value::Opt(o) => match o {
            Option::None => 0,
            Option::Some(b) => vheight(*b),
        },
        Value::List(vs) => 1 + vheight_list(vs@),
        Value::Tuple(vs) => 1 + vheight_list(vs@),
        Value::Dict(ps) => 1 + vheight_pairs(ps@),
        Value::Variant(_idx, scoped, fs) => if scoped {
            1 + vheight_list(fs@)
        } else {
            vheight_list(fs@)
        },
        _ => 0,
    }
}

pub open spec fn vheight_list(vs: Seq<Value>) -> nat
    decreases vs,
{
    if vs.len() == 0 {
        0
    } else {
        vstd::math::max(vheight(vs[0]) as int, vheight_list(vs.drop_first()) as int) as nat
    }
}

pub open spec fn vheight_pairs(ps: Seq<(Value, Value)>) -> nat
    decreases ps,
{
    if ps.len() == 0 {
        0
    } else {
        vstd::math::max(
            vstd::math::max(vheight(ps[0].0) as int, vheight(ps[0].1) as int),
            vheight_pairs(ps.drop_first()) as int,
        ) as nat
    }
}

pub proof fn lemma_vheight_list_at(vs: Seq<Value>, i: int)
    requires
        0 <= i < vs.len(),
    ensures
        vheight(vs[i]) <= vheight_list(vs),
    decreases vs,
{
    if i > 0 {
        lemma_vheight_list_at(vs.drop_first(), i - 1);
    }
}

pub proof fn lemma_vheight_pairs_at(ps: Seq<(Value, Value)>, i: int)
    requires
        0 <= i < ps.len(),
    ensures
        vheight(ps[i].0) <= vheight_pairs(ps),
        vheight(ps[i].1) <= vheight_pairs(ps),
    decreases ps,
{
    if i > 0 {
        lemma_vheight_pairs_at(ps.drop_first(), i - 1);
    }
}

/// The number of nodes in a value: the measure encoding recurses on.
pub open spec fn vsize(v: Value) -> nat
    decreases v,
{
    match v {
        Value::Opt(o) => match o {
            Option::None => 1,
            Option::Some(b) => 1 + vsize(*b),
        },
        Value::List(vs) => 1 + vsize_list(vs@),
        Value::Tuple(vs) => 1 + vsize_list(vs@),
        Value::Dict(ps) => 1 + vsize_pairs(ps@),
        Value::Variant(_idx, _scoped, fs) => 1 + vsize_list(fs@),
        _ => 1,
    }
}

pub open spec fn vsize_list(vs: Seq<Value>) -> nat
    decreases vs,
{
    if vs.len() == 0 {
        0
    } else {
        vsize(vs[0]) + vsize_list(vs.drop_first())
    }
}

pub open spec fn vsize_pairs(ps: Seq<(Value, Value)>) -> nat
    decreases ps,
{
    if ps.len() == 0 {
        0
    } else {
        vsize(ps[0].0) + vsize(ps[0].1) + vsize_pairs(ps.drop_first())
    }
}

pub proof fn lemma_vsize_list_at(vs: Seq<Value>, i: int)
    requires
        0 <= i < vs.len(),
    ensures
        vsize(vs[i]) <= vsize_list(vs),
    decreases vs,
{
    if i > 0 {
        lemma_vsize_list_at(vs.drop_first(), i - 1);
    } else {
        lemma_vsize_list_nonneg(vs.drop_first());
    }
}

pub proof fn lemma_vsize_list_nonneg(vs: Seq<Value>)
    ensures
        vsize_list(vs) >= 0,
{
}

pub proof fn lemma_vsize_pairs_at(ps: Seq<(Value, Value)>, i: int)
    requires
        0 <= i < ps.len(),
    ensures
        vsize(ps[i].0) <= vsize_pairs(ps),
        vsize(ps[i].1) <= vsize_pairs(ps),
    decreases ps,
{
    if i > 0 {
        lemma_vsize_pairs_at(ps.drop_first(), i - 1);
    }
}

/// Whether value `v` has shape `sh`: the relation a decoder restores.
pub open spec fn fits(v: Value, sh: Shape) -> bool
    decreases v,
{
    match v {
        Value::Bool(_) => sh is Bool,
        Value::U8(_) => sh is U8,
        Value::U16(_) => sh is U16,
        Value::U32(_) => sh is U32,
        Value::U64(_) => sh is U64,
        Value::U128(_) => sh is U128,
        Value::I8(_) => sh is I8,
        Value::I16(_) => sh is I16,
        Value::I32(_) => sh is I32,
        Value::I64(_) => sh is I64,
        Value::I128(_) => sh is I128,
        Value::F32Bits(_) => sh is F32,
        Value::F64Bits(_) => sh is F64,
        Value::Char(_) => sh is Char,
        Value::Text(_) => sh is Text,
        Value::Bytes(_) => sh is Bytes,
        Value::Opt(o) => sh matches Shape::Opt(ish) && match o {
            Option::None => true,
            Option::Some(b) => fits(*b, *ish),
        },
        Value::Unit => sh is Unit,
        Value::List(vs) => sh matches Shape::List(esh) && fits_list(vs@, *esh),
        Value::Tuple(vs) => sh matches Shape::Tuple(shs) && fits_fields(vs@, shs@),
        Value::Dict(ps) => sh matches Shape::Dict(ksh, vsh) && fits_pairs(ps@, *ksh, *vsh),
        Value::Variant(idx, scoped, fs) => sh matches Shape::Enum(vars) && {
            &&& (idx as int) < vars@.len()
            &&& scoped == vars@[idx as int].scoped
            &&& fits_fields(fs@, vars@[idx as int].fields@)
        },
    }
}

pub open spec fn fits_list(vs: Seq<Value>, esh: Shape) -> bool
    decreases vs,
{
    if vs.len() == 0 {
        true
    } else {
        fits(vs[0], esh) && fits_list(vs.drop_first(), esh)
    }
}

pub open spec fn fits_fields(vs: Seq<Value>, shs: Seq<Shape>) -> bool
    decreases vs,
{
    if vs.len() != shs.len() {
        false
    } else if vs.len() == 0 {
        true
    } else {
        fits(vs[0], shs[0]) && fits_fields(vs.drop_first(), shs.drop_first())
    }
}

pub open spec fn fits_pairs(ps: Seq<(Value, Value)>, ksh: Shape, vsh: Shape) -> bool
    decreases ps,
{
    if ps.len() == 0 {
        true
    } else {
        fits(ps[0].0, ksh) && fits(ps[0].1, vsh) && fits_pairs(ps.drop_first(), ksh, vsh)
    }
}

/// The number of nodes in a shape: the measure decoding recurses on.
pub open spec fn ssize(sh: Shape) -> nat
    decreases sh,
{
    match sh {
        Shape::Opt(inner) => 1 + ssize(*inner),
        Shape::List(esh) => 1 + ssize(*esh),
        Shape::Tuple(shs) => 1 + ssize_fields(shs@),
        Shape::Dict(ksh, vsh) => 1 + ssize(*ksh) + ssize(*vsh),
        Shape::Enum(vars) => 1 + ssize_vars(vars@),
        _ => 1,
    }
}

pub open spec fn ssize_fields(shs: Seq<Shape>) -> nat
    decreases shs,
{
    if shs.len() == 0 {
        0
    } else {
        ssize(shs[0]) + ssize_fields(shs.drop_first())
    }
}

pub open spec fn ssize_vars(vars: Seq<VariantShape>) -> nat
    decreases vars,
{
    if vars.len() == 0 {
        0
    } else {
        1 + ssize_fields(vars[0].fields@) + ssize_vars(vars.drop_first())
    }
}

pub proof fn lemma_ssize_pos(sh: Shape)
    ensures
        ssize(sh) >= 1,
{
}

pub proof fn lemma_ssize_fields_at(shs: Seq<Shape>, i: int)
    requires
        0 <= i < shs.len(),
    ensures
        ssize(shs[i]) <= ssize_fields(shs),
    decreases shs,
{
    if i > 0 {
        lemma_ssize_fields_at(shs.drop_first(), i - 1);
    }
}

pub proof fn lemma_ssize_vars_at(vars: Seq<VariantShape>, i: int)
    requires
        0 <= i < vars.len(),
    ensures
        ssize_fields(vars[i].fields@) < ssize_vars(vars),
    decreases vars,
{
    if i > 0 {
        lemma_ssize_vars_at(vars.drop_first(), i - 1);
    }
}

pub proof fn lemma_view_list_push(vs: Seq<Value>, x: Value)
    ensures
        view_list(vs.push(x)) == view_list(vs).push(view_value(x)),
{
    lemma_view_list(vs.push(x));
    lemma_view_list(vs);
    assert(view_list(vs.push(x)) =~= view_list(vs).push(view_value(x)));
}

pub proof fn lemma_view_pairs_push(ps: Seq<(Value, Value)>, x: (Value, Value))
    ensures
        view_pairs(ps.push(x)) == view_pairs(ps).push((view_value(x.0), view_value(x.1))),
{
    lemma_view_pairs(ps.push(x));
    lemma_view_pairs(ps);
    assert(view_pairs(ps.push(x)) =~= view_pairs(ps).push((view_value(x.0), view_value(x.1))));
}

/// How many scopes decoding shape `sh` can open above the current one.
pub open spec fn sheight(sh: Shape) -> nat
    decreases sh,
{
    match sh {
        Shape::Opt(inner) => sheight(*inner),
        Shape::List(esh) => 1 + sheight(*esh),
        Shape::Tuple(shs) => 1 + sheight_fields(shs@),
        Shape::Dict(ksh, vsh) => 1 + vstd::math::max(sheight(*ksh) as int, sheight(*vsh) as int) as nat,
        Shape::Enum(vars) => 1 + sheight_vars(vars@),
        _ => 0,
    }
}

pub open spec fn sheight_fields(shs: Seq<Shape>) -> nat
    decreases shs,
{
    if shs.len() == 0 {
        0
    } else {
        vstd::math::max(sheight(shs[0]) as int, sheight_fields(shs.drop_first()) as int) as nat
    }
}

pub open spec fn sheight_vars(vars: Seq<VariantShape>) -> nat
    decreases vars,
{
    if vars.len() == 0 {
        0
    } else {
        vstd::math::max(sheight_fields(vars[0].fields@) as int, sheight_vars(vars.drop_first()) as int)
            as nat
    }
}

pub proof fn lemma_sheight_fields_at(shs: Seq<Shape>, i: int)
    requires
        0 <= i < shs.len(),
    ensures
        sheight(shs[i]) <= sheight_fields(shs),
    decreases shs,
{
    if i > 0 {
        lemma_sheight_fields_at(shs.drop_first(), i - 1);
    }
}

pub proof fn lemma_sheight_vars_at(vars: Seq<VariantShape>, i: int)
    requires
        0 <= i < vars.len(),
    ensures
        sheight_fields(vars[i].fields@) <= sheight_vars(vars),
    decreases vars,
{
    if i > 0 {
        lemma_sheight_vars_at(vars.drop_first(), i - 1);
    }
}

} // verus!
