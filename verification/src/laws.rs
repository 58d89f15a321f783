//! Laws the codec obeys, stated over the same spec functions that the
//! encoder's and decoder's contracts use.

use vstd::prelude::*;
use crate::err::Error;
use crate::packer::PackState;
use crate::serializer::{enc, enc_word, lo32, hi32, quad_words};
use crate::deserializer::{dec, ReadState};
use crate::value::{Value, SpecVal, Shape, view_value, fits, wf_value};
use crate::words::{
    byte_at, word_of, words_of_bytes, lemma_word_of_small, lemma_le_val_byte_at_zero,
    lemma_words_of_bytes_len, lemma_words_of_bytes_at,
};
use vstd::arithmetic::div_mod::{
    lemma_fundamental_div_mod, lemma_fundamental_div_mod_converse, lemma_small_mod,
    lemma_div_denominator,
};

verus! {

/// A float's bit pattern encodes identically to the same-width unsigned
/// integer, in every packing state.
pub proof fn lemma_float_bits_encode(b32: u32, b64: u64, st: PackState)
    ensures
        enc(Value::F32Bits(b32), st) == enc(Value::U32(b32), st),
        enc(Value::F64Bits(b64), st) == enc(Value::U64(b64), st),
{
}

/// A 64-bit value is split low half first, then high half.
pub proof fn lemma_u64_split(x: u64, st: PackState)
    ensures
        enc(Value::U64(x), st).0 == st.flush_words() + seq![lo32(x), hi32(x)],
        lo32(x) == x % 0x1_0000_0000,
        hi32(x) == x / 0x1_0000_0000,
{
}

/// A 128-bit value is written as four words, least significant first.
pub proof fn lemma_u128_split(x: u128, st: PackState)
    ensures
        enc(Value::U128(x), st).0 == st.flush_words() + quad_words(x),
        quad_words(x)[0] == x % 0x1_0000_0000,
{
}

/// An absent option encodes as the direct word 0; a present option as the
/// direct word 1 followed by the inner encoding.
pub proof fn lemma_option_encoding(inner: Value, st: PackState)
    ensures
        enc(Value::Opt(Option::None), st) == enc_word(0, st),
        enc(Value::Opt(Option::Some(Box::new(inner))), st).0 == enc_word(1, st).0 + enc(
            inner,
            st.flushed(),
        ).0,
{
}

/// A partial word flushed on returning to depth zero has its unused high
/// lanes zero.
pub proof fn lemma_depth_zero_flush_zero_lanes(st: PackState, i: nat)
    requires
        st.wf(),
        st.depth == 1,
        st.pend.len() > 0,
        st.pend.len() <= i < 4,
    ensures
        st.close_words() == seq![word_of(st.pend)],
        byte_at(word_of(st.pend) as int, i) == 0,
{
    lemma_word_of_small(st.pend);
    lemma_le_val_byte_at_zero(st.pend, i);
}

/// A value with no internal structure: one whose encoding never opens a
/// scope and never packs state across neighbours.
pub open spec fn is_primitive(v: Value) -> bool {
    match v {
        Value::Opt(_) => false,
        Value::List(_) => false,
        Value::Tuple(_) => false,
        Value::Dict(_) => false,
        Value::Variant(_, _, _) => false,
        _ => true,
    }
}

/// Round trip for every primitive shape at top level, and at any depth
/// for those that encode to whole words: decoding the words that
/// encoding produced, wherever they stand in a larger stream, recovers
/// exactly the original value and consumes exactly its words.
pub proof fn lemma_round_trip_primitive_at(v: Value, sh: Shape, ws: Seq<u32>, i: int, d: nat)
    requires
        is_primitive(v),
        d != 0 ==> !(v is U8) && !(v is Bool),
        wf_value(v),
        fits(v, sh),
        0 <= i,
        i + enc(v, PackState { depth: d, pend: Seq::empty() }).0.len() <= ws.len(),
        ws.subrange(
            i,
            i + enc(v, PackState { depth: d, pend: Seq::empty() }).0.len() as int,
        ) == enc(v, PackState { depth: d, pend: Seq::empty() }).0,
    ensures
        ({
            let st0 = PackState { depth: d, pend: Seq::empty() };
            let rst0 = ReadState { depth: d, rfill: 0, held: 0 };
            &&& enc(v, st0).1 == st0
            &&& dec(sh, ws, i, rst0) == Ok::<(SpecVal, int, ReadState), Error>(
                (view_value(v), i + enc(v, st0).0.len(), rst0),
            )
        }),
{
    let st0 = PackState { depth: d, pend: Seq::empty() };
    let e = enc(v, st0).0;
    let sub = ws.subrange(i, i + e.len() as int);
    match v {
        Value::Bool(b) => {
            let x: u8 = if b { 1 } else { 0 };
            assert(ws[i] == e[0]);
            lemma_byte_word_round_trip(x);
        },
        Value::U8(x) => {
            assert(ws[i] == e[0]);
            lemma_byte_word_round_trip(x);
        },
        Value::U16(_x) => {
            assert(ws[i] == e[0]);
        },
        Value::U32(_x) => {
            assert(ws[i] == e[0]);
        },
        Value::U64(x) => {
            assert(ws[i] == e[0]);
            assert(ws[i + 1] == e[1]);
            lemma_fundamental_div_mod(x as int, 0x1_0000_0000);
        },
        Value::U128(x) => {
            assert(ws[i] == e[0]);
            assert(ws[i + 1] == e[1]);
            assert(ws[i + 2] == e[2]);
            assert(ws[i + 3] == e[3]);
            lemma_quad_recombine(x);
        },
        Value::I8(x) => {
            assert(ws[i] == e[0]);
            assert((((x as i32) as u32) as i8) == x) by (bit_vector);
        },
        Value::I16(x) => {
            assert(ws[i] == e[0]);
            assert((((x as i32) as u32) as i16) == x) by (bit_vector);
        },
        Value::I32(x) => {
            assert(ws[i] == e[0]);
            assert(((x as u32) as i32) == x) by (bit_vector);
        },
        Value::I64(x) => {
            assert(ws[i] == e[0]);
            assert(ws[i + 1] == e[1]);
            lemma_fundamental_div_mod((x as u64) as int, 0x1_0000_0000);
            assert(((x as u64) as i64) == x) by (bit_vector);
        },
        Value::I128(x) => {
            assert(ws[i] == e[0]);
            assert(ws[i + 1] == e[1]);
            assert(ws[i + 2] == e[2]);
            assert(ws[i + 3] == e[3]);
            lemma_quad_recombine(x as u128);
            assert(((x as u128) as i128) == x) by (bit_vector);
        },
        Value::F32Bits(_x) => {
            assert(ws[i] == e[0]);
        },
        Value::F64Bits(x) => {
            assert(ws[i] == e[0]);
            assert(ws[i + 1] == e[1]);
            lemma_fundamental_div_mod(x as int, 0x1_0000_0000);
        },
        Value::Char(c) => {
            assert(ws[i] == e[0]);
            vstd::utf8::char_is_scalar(c);
            vstd::utf8::char_u32_cast(c, c as u32);
        },
        Value::Text(bs) => {
            lemma_words_of_bytes_len(bs@);
            lemma_padded_round_trip(bs@, ws, i);
        },
        Value::Bytes(bs) => {
            lemma_words_of_bytes_len(bs@);
            lemma_padded_round_trip(bs@, ws, i);
        },
        Value::Unit => {},
        _ => {},
    }
}

/// Round trip for an option over a primitive at top level: absence and
/// presence both decode back exactly.
pub proof fn lemma_round_trip_option(o: Option<Box<Value>>, sh: Shape, ws: Seq<u32>, i: int)
    requires
        (o matches Some(b) ==> is_primitive(*b)),
        wf_value(Value::Opt(o)),
        fits(Value::Opt(o), sh),
        0 <= i,
        i + enc(Value::Opt(o), PackState::init()).0.len() <= ws.len(),
        ws.subrange(i, i + enc(Value::Opt(o), PackState::init()).0.len() as int) == enc(
            Value::Opt(o),
            PackState::init(),
        ).0,
    ensures
        dec(sh, ws, i, ReadState::init()) == Ok::<(SpecVal, int, ReadState), Error>(
            (
                view_value(Value::Opt(o)),
                i + enc(Value::Opt(o), PackState::init()).0.len(),
                ReadState::init(),
            ),
        ),
{
    let st0 = PackState::init();
    let e = enc(Value::Opt(o), st0).0;
    match o {
        Option::None => {
            assert(ws[i] == e[0]);
        },
        Option::Some(b) => {
            assert(ws[i] == e[0]);
            let inner = enc(*b, st0).0;
            assert(st0.flushed() == st0);
            assert(ws.subrange(i + 1, i + 1 + inner.len() as int) =~= inner) by {
                assert forall|k: int| 0 <= k < inner.len() implies ws[i + 1 + k] == inner[k] by {
                    assert(ws.subrange(i, i + e.len() as int)[1 + k] == ws[i + 1 + k]);
                }
            }
            let ish = sh->Opt_0;
            lemma_round_trip_primitive_at(*b, *ish, ws, i + 1, 0);
        },
    }
}

/// Whether a value is a primitive that encodes to whole words only.
pub open spec fn is_direct(v: Value) -> bool {
    is_primitive(v) && !(v is U8) && !(v is Bool)
}

/// Round trip for a fixed aggregate of directly word-encoded primitives
/// at top level.
pub proof fn lemma_round_trip_record(vfields: Vec<Value>, shv: Vec<Shape>, ws: Seq<u32>)
    requires
        forall|k: int| 0 <= k < vfields@.len() ==> is_direct(#[trigger] vfields@[k]),
        wf_value(Value::Tuple(vfields)),
        fits(Value::Tuple(vfields), Shape::Tuple(shv)),
        ws == enc(Value::Tuple(vfields), PackState::init()).0,
    ensures
        dec(Shape::Tuple(shv), ws, 0, ReadState::init()) == Ok::<
            (SpecVal, int, ReadState),
            Error,
        >((view_value(Value::Tuple(vfields)), ws.len() as int, ReadState::init())),
{
    let st1 = PackState { depth: 1, pend: Seq::empty() };
    let elist = crate::serializer::enc_list(vfields@, st1).0;
    assert(PackState::init().opened() == st1);
    assert(ws =~= elist) by {
        assert(crate::serializer::enc_list(vfields@, st1).1.pend =~= Seq::<u8>::empty()) by {
            lemma_fields_state(vfields@, st1);
        }
        assert(elist + Seq::<u32>::empty() =~= elist);
    }
    assert(ws.subrange(0, ws.len() as int) =~= ws);
    lemma_round_trip_fields(vfields@, shv@, ws, 0, 1);
}

/// Round trip for a sequence of directly word-encoded primitives at top
/// level: the count word followed by the elements decodes back exactly.
pub proof fn lemma_round_trip_list(velems: Vec<Value>, eshb: Box<Shape>, ws: Seq<u32>)
    requires
        forall|k: int| 0 <= k < velems@.len() ==> is_direct(#[trigger] velems@[k]),
        wf_value(Value::List(velems)),
        fits(Value::List(velems), Shape::List(eshb)),
        ws == enc(Value::List(velems), PackState::init()).0,
    ensures
        dec(Shape::List(eshb), ws, 0, ReadState::init()) == Ok::<
            (SpecVal, int, ReadState),
            Error,
        >((view_value(Value::List(velems)), ws.len() as int, ReadState::init())),
{
    let st1 = PackState { depth: 1, pend: Seq::empty() };
    let cnt: u32 = velems@.len() as u32;
    let elist = crate::serializer::enc_list(velems@, st1).0;
    assert(PackState::init().opened() == st1);
    lemma_fields_state(velems@, st1);
    assert(ws =~= seq![cnt] + elist) by {
        assert(Seq::<u32>::empty() + seq![cnt] =~= seq![cnt]);
        assert(seq![cnt] + elist + Seq::<u32>::empty() =~= seq![cnt] + elist);
    }
    assert(ws[0] == cnt);
    assert(ws.subrange(1, 1 + elist.len() as int) =~= elist) by {
        assert forall|k: int| 0 <= k < elist.len() implies ws[1 + k] == elist[k] by {
            assert((seq![cnt] + elist)[1 + k] == elist[k]);
        }
    }
    lemma_round_trip_list_elems(velems@, *eshb, ws, 1, 1);
}

/// Round trip for a run of directly word-encoded primitive elements of
/// one shape at any depth.
proof fn lemma_round_trip_list_elems(elems: Seq<Value>, esh: Shape, ws: Seq<u32>, i: int, d: nat)
    requires
        forall|k: int| 0 <= k < elems.len() ==> is_direct(#[trigger] elems[k]),
        crate::value::wf_list(elems),
        crate::value::fits_list(elems, esh),
        0 <= i,
        ({
            let st0 = PackState { depth: d, pend: Seq::empty() };
            let e = crate::serializer::enc_list(elems, st0).0;
            &&& i + e.len() <= ws.len()
            &&& ws.subrange(i, i + e.len() as int) == e
        }),
    ensures
        ({
            let st0 = PackState { depth: d, pend: Seq::empty() };
            let rst0 = ReadState { depth: d, rfill: 0, held: 0 };
            let e = crate::serializer::enc_list(elems, st0).0;
            &&& crate::serializer::enc_list(elems, st0).1 == st0
            &&& crate::deserializer::dec_list(esh, elems.len(), ws, i, rst0) == Ok::<
                (Seq<SpecVal>, int, ReadState),
                Error,
            >((crate::value::view_list(elems), i + e.len(), rst0))
        }),
    decreases elems.len(),
{
    let st0 = PackState { depth: d, pend: Seq::empty() };
    let rst0 = ReadState { depth: d, rfill: 0, held: 0 };
    let e = crate::serializer::enc_list(elems, st0).0;
    if elems.len() == 0 {
        assert(crate::value::view_list(elems) =~= Seq::<SpecVal>::empty());
    } else {
        let v0 = elems[0];
        let e0 = enc(v0, st0).0;
        let sub = ws.subrange(i, i + e.len() as int);
        assert(ws.subrange(i, i + e0.len() as int) =~= e0) by {
            assert forall|k: int| 0 <= k < e0.len() implies ws[i + k] == e0[k] by {
                assert(sub[k] == ws[i + k]);
            }
        }
        lemma_round_trip_primitive_at(v0, esh, ws, i, d);
        let rest = crate::serializer::enc_list(elems.drop_first(), st0).0;
        assert(ws.subrange(i + e0.len() as int, i + e0.len() + rest.len() as int) =~= rest) by {
            assert forall|k: int| 0 <= k < rest.len() implies ws[i + e0.len() + k] == rest[k] by {
                assert(sub[e0.len() + k] == ws[i + e0.len() + k]);
                assert(e[e0.len() + k] == rest[k]);
            }
        }
        lemma_round_trip_list_elems(elems.drop_first(), esh, ws, i + e0.len() as int, d);
        assert(seq![view_value(v0)] + crate::value::view_list(elems.drop_first())
            =~= crate::value::view_list(elems));
    }
}

/// Whether both halves of a map entry are direct primitives.
pub open spec fn is_direct_pair(p: (Value, Value)) -> bool {
    is_direct(p.0) && is_direct(p.1)
}

/// Round trip for a map whose keys and values are directly word-encoded
/// primitives, at top level.
pub proof fn lemma_round_trip_dict(
    ventries: Vec<(Value, Value)>,
    kshb: Box<Shape>,
    vshb: Box<Shape>,
    ws: Seq<u32>,
)
    requires
        forall|k: int| 0 <= k < ventries@.len() ==> is_direct_pair(#[trigger] ventries@[k]),
        wf_value(Value::Dict(ventries)),
        fits(Value::Dict(ventries), Shape::Dict(kshb, vshb)),
        ws == enc(Value::Dict(ventries), PackState::init()).0,
    ensures
        dec(Shape::Dict(kshb, vshb), ws, 0, ReadState::init()) == Ok::<
            (SpecVal, int, ReadState),
            Error,
        >((view_value(Value::Dict(ventries)), ws.len() as int, ReadState::init())),
{
    let st1 = PackState { depth: 1, pend: Seq::empty() };
    let cnt: u32 = ventries@.len() as u32;
    let elist = crate::serializer::enc_pairs(ventries@, st1).0;
    assert(PackState::init().opened() == st1);
    lemma_pairs_state(ventries@, st1);
    assert(ws =~= seq![cnt] + elist) by {
        assert(Seq::<u32>::empty() + seq![cnt] =~= seq![cnt]);
        assert(seq![cnt] + elist + Seq::<u32>::empty() =~= seq![cnt] + elist);
    }
    assert(ws[0] == cnt);
    assert(ws.subrange(1, 1 + elist.len() as int) =~= elist) by {
        assert forall|k: int| 0 <= k < elist.len() implies ws[1 + k] == elist[k] by {
            assert((seq![cnt] + elist)[1 + k] == elist[k]);
        }
    }
    lemma_round_trip_pairs_elems(ventries@, *kshb, *vshb, ws, 1, 1);
}

/// Round trip for a run of map entries of direct primitives at any depth.
proof fn lemma_round_trip_pairs_elems(
    entries: Seq<(Value, Value)>,
    ksh: Shape,
    vsh: Shape,
    ws: Seq<u32>,
    i: int,
    d: nat,
)
    requires
        forall|k: int| 0 <= k < entries.len() ==> is_direct_pair(#[trigger] entries[k]),
        crate::value::wf_pairs(entries),
        crate::value::fits_pairs(entries, ksh, vsh),
        0 <= i,
        ({
            let st0 = PackState { depth: d, pend: Seq::empty() };
            let e = crate::serializer::enc_pairs(entries, st0).0;
            &&& i + e.len() <= ws.len()
            &&& ws.subrange(i, i + e.len() as int) == e
        }),
    ensures
        ({
            let st0 = PackState { depth: d, pend: Seq::empty() };
            let rst0 = ReadState { depth: d, rfill: 0, held: 0 };
            let e = crate::serializer::enc_pairs(entries, st0).0;
            &&& crate::serializer::enc_pairs(entries, st0).1 == st0
            &&& crate::deserializer::dec_pairs(ksh, vsh, entries.len(), ws, i, rst0) == Ok::<
                (Seq<(SpecVal, SpecVal)>, int, ReadState),
                Error,
            >((crate::value::view_pairs(entries), i + e.len(), rst0))
        }),
    decreases entries.len(),
{
    let st0 = PackState { depth: d, pend: Seq::empty() };
    let rst0 = ReadState { depth: d, rfill: 0, held: 0 };
    let e = crate::serializer::enc_pairs(entries, st0).0;
    if entries.len() == 0 {
        assert(crate::value::view_pairs(entries) =~= Seq::<(SpecVal, SpecVal)>::empty());
    } else {
        let k0 = entries[0].0;
        let v0 = entries[0].1;
        let ek = enc(k0, st0).0;
        let ev = enc(v0, st0).0;
        let sub = ws.subrange(i, i + e.len() as int);
        assert(ws.subrange(i, i + ek.len() as int) =~= ek) by {
            assert forall|k: int| 0 <= k < ek.len() implies ws[i + k] == ek[k] by {
                assert(sub[k] == ws[i + k]);
                assert(e[k] == (ek + ev)[k]);
            }
        }
        lemma_round_trip_primitive_at(k0, ksh, ws, i, d);
        assert(ws.subrange(i + ek.len() as int, i + ek.len() + ev.len() as int) =~= ev) by {
            assert forall|k: int| 0 <= k < ev.len() implies ws[i + ek.len() + k] == ev[k] by {
                assert(sub[ek.len() + k] == ws[i + ek.len() + k]);
                assert(e[ek.len() + k] == (ek + ev)[ek.len() + k]);
            }
        }
        lemma_round_trip_primitive_at(v0, vsh, ws, i + ek.len() as int, d);
        let rest = crate::serializer::enc_pairs(entries.drop_first(), st0).0;
        let off = i + ek.len() + ev.len() as int;
        assert(ws.subrange(off, off + rest.len() as int) =~= rest) by {
            assert forall|k: int| 0 <= k < rest.len() implies ws[off + k] == rest[k] by {
                assert(sub[ek.len() + ev.len() + k] == ws[off + k]);
                assert(e[ek.len() + ev.len() + k] == rest[k]);
            }
        }
        lemma_round_trip_pairs_elems(entries.drop_first(), ksh, vsh, ws, off, d);
        assert(seq![(view_value(k0), view_value(v0))] + crate::value::view_pairs(
            entries.drop_first(),
        ) =~= crate::value::view_pairs(entries));
    }
}

/// A run of map entries of direct primitives leaves the packing state
/// exactly as it found it.
proof fn lemma_pairs_state(entries: Seq<(Value, Value)>, st0: PackState)
    requires
        forall|k: int| 0 <= k < entries.len() ==> is_direct_pair(#[trigger] entries[k]),
        st0.pend == Seq::<u8>::empty(),
    ensures
        crate::serializer::enc_pairs(entries, st0).1 == st0,
    decreases entries.len(),
{
    if entries.len() > 0 {
        assert(st0.flushed() == st0);
        assert(is_direct_pair(entries[0]));
        assert(enc(entries[0].0, st0).1 == st0);
        assert(enc(entries[0].1, st0).1 == st0);
        lemma_pairs_state(entries.drop_first(), st0);
    }
}

/// A run of directly word-encoded primitives leaves the packing state
/// exactly as it found it.
proof fn lemma_fields_state(fields: Seq<Value>, st0: PackState)
    requires
        forall|k: int| 0 <= k < fields.len() ==> is_direct(#[trigger] fields[k]),
        st0.pend == Seq::<u8>::empty(),
    ensures
        crate::serializer::enc_list(fields, st0).1 == st0,
    decreases fields.len(),
{
    if fields.len() > 0 {
        assert(enc(fields[0], st0).1 == st0) by {
            assert(st0.flushed() == st0);
        }
        lemma_fields_state(fields.drop_first(), st0);
    }
}

/// Round trip for a run of directly word-encoded primitive fields at any
/// depth.
pub proof fn lemma_round_trip_fields(fields: Seq<Value>, shs: Seq<Shape>, ws: Seq<u32>, i: int, d: nat)
    requires
        forall|k: int| 0 <= k < fields.len() ==> is_direct(#[trigger] fields[k]),
        crate::value::wf_list(fields),
        crate::value::fits_fields(fields, shs),
        0 <= i,
        ({
            let st0 = PackState { depth: d, pend: Seq::empty() };
            let e = crate::serializer::enc_list(fields, st0).0;
            &&& i + e.len() <= ws.len()
            &&& ws.subrange(i, i + e.len() as int) == e
        }),
    ensures
        ({
            let st0 = PackState { depth: d, pend: Seq::empty() };
            let rst0 = ReadState { depth: d, rfill: 0, held: 0 };
            let e = crate::serializer::enc_list(fields, st0).0;
            &&& crate::serializer::enc_list(fields, st0).1 == st0
            &&& crate::deserializer::dec_fields(shs, ws, i, rst0) == Ok::<
                (Seq<SpecVal>, int, ReadState),
                Error,
            >((crate::value::view_list(fields), i + e.len(), rst0))
        }),
    decreases fields.len(),
{
    let st0 = PackState { depth: d, pend: Seq::empty() };
    let rst0 = ReadState { depth: d, rfill: 0, held: 0 };
    let e = crate::serializer::enc_list(fields, st0).0;
    if fields.len() == 0 {
        assert(crate::value::view_list(fields) =~= Seq::<SpecVal>::empty());
    } else {
        let v0 = fields[0];
        let e0 = enc(v0, st0).0;
        let sub = ws.subrange(i, i + e.len() as int);
        assert(ws.subrange(i, i + e0.len() as int) =~= e0) by {
            assert forall|k: int| 0 <= k < e0.len() implies ws[i + k] == e0[k] by {
                assert(sub[k] == ws[i + k]);
            }
        }
        lemma_round_trip_primitive_at(v0, shs[0], ws, i, d);
        let rest = crate::serializer::enc_list(fields.drop_first(), st0).0;
        assert(ws.subrange(i + e0.len() as int, i + e0.len() + rest.len() as int) =~= rest) by {
            assert forall|k: int| 0 <= k < rest.len() implies ws[i + e0.len() + k] == rest[k] by {
                assert(sub[e0.len() + k] == ws[i + e0.len() + k]);
                assert(e[e0.len() + k] == rest[k]);
            }
        }
        lemma_round_trip_fields(fields.drop_first(), shs.drop_first(), ws, i + e0.len() as int, d);
        assert(crate::value::view_list(fields) =~= seq![view_value(v0)] + crate::value::view_list(
            fields.drop_first(),
        ));
        assert(seq![view_value(v0)] + crate::value::view_list(fields.drop_first())
            =~= crate::value::view_list(fields));
    }
}

/// A byte widened to a standalone word reads back as itself.
proof fn lemma_byte_word_round_trip(x: u8)
    ensures
        byte_at((x as u32) as int, 0) == x,
{
    lemma_fundamental_div_mod_converse((x as u32) as int, 1, x as int, 0);
    lemma_small_mod(x as nat, 256);
}

/// The four words of a 128-bit value recombine to the value.
proof fn lemma_quad_recombine(x: u128)
    ensures
        ({
            let q = quad_words(x);
            (q[0] as u128 + (q[1] as u128) * 0x1_0000_0000 + (q[2] as u128)
                * 0x1_0000_0000_0000_0000 + (q[3] as u128)
                * 0x1_0000_0000_0000_0000_0000_0000) as u128 == x
        }),
{
    let p32: int = 0x1_0000_0000;
    let q1 = x as int / p32;
    let q2 = q1 / p32;
    let q3 = q2 / p32;
    lemma_fundamental_div_mod(x as int, p32);
    lemma_fundamental_div_mod(q1, p32);
    lemma_fundamental_div_mod(q2, p32);
    lemma_div_denominator(x as int, p32, p32);
    lemma_div_denominator(x as int, 0x1_0000_0000_0000_0000, p32);
    lemma_div_denominator(q1, p32, p32);
    assert(q3 < p32) by {
        lemma_div_denominator(x as int, 0x1_0000_0000_0000_0000, p32);
    };
    lemma_small_mod(q3 as nat, p32 as nat);
}

/// A length-prefixed byte run reads back as exactly the original bytes.
proof fn lemma_padded_round_trip(bs: Seq<u8>, ws: Seq<u32>, i: int)
    requires
        bs.len() <= u32::MAX,
        0 <= i,
        i + 1 + words_of_bytes(bs).len() <= ws.len(),
        ws.subrange(i, i + 1 + words_of_bytes(bs).len() as int) == seq![bs.len() as u32]
            + words_of_bytes(bs),
    ensures
        ws[i] == bs.len() as u32,
        ({
            let n = bs.len();
            let k = (n + 3) / 4;
            &&& i + 1 + k <= ws.len()
            &&& Seq::new(n, |j: int| byte_at(ws[i + 1 + j / 4] as int, (j % 4) as nat) as u8) == bs
        }),
{
    let sub = ws.subrange(i, i + 1 + words_of_bytes(bs).len() as int);
    lemma_words_of_bytes_len(bs);
    assert(ws[i] == sub[0]);
    let n = bs.len();
    let got = Seq::new(n, |j: int| byte_at(ws[i + 1 + j / 4] as int, (j % 4) as nat) as u8);
    assert forall|j: int| 0 <= j < n implies got[j] == bs[j] by {
        lemma_words_of_bytes_at(bs, j as nat);
        lemma_fundamental_div_mod(j, 4);
        vstd::arithmetic::div_mod::lemma_mod_pos_bound(j, 4);
        assert(ws[i + 1 + j / 4] == sub[1 + j / 4]);
        assert(sub[1 + j / 4] == words_of_bytes(bs)[j / 4]);
    }
    assert(got =~= bs);
}

} // verus!

