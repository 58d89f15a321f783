//! The encoder: a depth-first traversal turning one typed value into a
//! stream of 32-bit words, with single-byte values routed through the
//! byte-packing state machine.

use vstd::prelude::*;
use crate::err::Error;
use crate::packer::{ByteHandler, PackState};
use crate::value::{
    Value, wf_value, wf_list, wf_pairs, vheight, vheight_list, vheight_pairs, vsize,
    lemma_vheight_list_at, lemma_vheight_pairs_at, lemma_wf_list_at, lemma_wf_pairs_at,
    lemma_vsize_list_at, lemma_vsize_pairs_at,
};
use crate::words::{word_of, words_of_bytes, le_val, lemma_word_of_small};

verus! {

/// The low half of a 64-bit value, written first.
pub open spec fn lo32(x: u64) -> u32 {
    (x % 0x1_0000_0000) as u32
}

/// The high half of a 64-bit value, written second.
pub open spec fn hi32(x: u64) -> u32 {
    (x / 0x1_0000_0000) as u32
}

/// The four words of a 128-bit value, least significant first.
pub open spec fn quad_words(x: u128) -> Seq<u32> {
    seq![
        (x % 0x1_0000_0000) as u32,
        ((x / 0x1_0000_0000) % 0x1_0000_0000) as u32,
        ((x / 0x1_0000_0000_0000_0000) % 0x1_0000_0000) as u32,
        ((x / 0x1_0000_0000_0000_0000_0000_0000) % 0x1_0000_0000) as u32,
    ]
}

/// One directly word-encoded value: forced flush, then the word itself.
pub open spec fn enc_word(w: u32, st: PackState) -> (Seq<u32>, PackState) {
    (st.flush_words() + seq![w], st.flushed())
}

/// One byte-packed value.
pub open spec fn enc_byte(b: u8, st: PackState) -> (Seq<u32>, PackState) {
    (st.byte_words(b), st.byte_pushed(b))
}

/// A length-prefixed byte run: forced flush, the count as one word, then
/// the raw bytes zero-padded to the next word boundary.
pub open spec fn enc_bytes(bs: Seq<u8>, st: PackState) -> (Seq<u32>, PackState) {
    (st.flush_words() + seq![bs.len() as u32] + words_of_bytes(bs), st.flushed())
}

/// What encoding value `v` in state `st` appends to the word stream, and
/// the packing state it leaves behind. This spec function is the wire
/// format.
pub open spec fn enc(v: Value, st: PackState) -> (Seq<u32>, PackState)
    decreases v,
{
    match v {
        Value::Bool(b) => enc_byte(if b { 1 } else { 0 }, st),
        Value::U8(x) => enc_byte(x, st),
        Value::U16(x) => enc_word(x as u32, st),
        Value::U32(x) => enc_word(x, st),
        Value::U64(x) => (st.flush_words() + seq![lo32(x), hi32(x)], st.flushed()),
        Value::U128(x) => (st.flush_words() + quad_words(x), st.flushed()),
        Value::I8(x) => enc_word((x as i32) as u32, st),
        Value::I16(x) => enc_word((x as i32) as u32, st),
        Value::I32(x) => enc_word(x as u32, st),
        Value::I64(x) => (st.flush_words() + seq![lo32(x as u64), hi32(x as u64)], st.flushed()),
        Value::I128(x) => (st.flush_words() + quad_words(x as u128), st.flushed()),
        Value::F32Bits(w) => enc_word(w, st),
        Value::F64Bits(x) => (st.flush_words() + seq![lo32(x), hi32(x)], st.flushed()),
        Value::Char(c) => enc_word(c as u32, st),
        Value::Text(bs) => enc_bytes(bs@, st),
        Value::Bytes(bs) => enc_bytes(bs@, st),
        Value::Opt(o) => match o {
            Option::None => enc_word(0, st),
            Option::Some(b) => {
                let (w1, st1) = enc_word(1, st);
                let (w2, st2) = enc(*b, st1);
                (w1 + w2, st2)
            },
        },
        Value::Unit => (Seq::empty(), st),
        Value::List(vs) => {
            let (w1, st2) = enc_word(vs@.len() as u32, st.opened());
            let (w2, st3) = enc_list(vs@, st2);
            (w1 + w2 + st3.close_words(), st3.closed())
        },
        Value::Tuple(vs) => {
            let (w2, st3) = enc_list(vs@, st.opened());
            (w2 + st3.close_words(), st3.closed())
        },
        Value::Dict(ps) => {
            let (w1, st2) = enc_word(ps@.len() as u32, st.opened());
            let (w2, st3) = enc_pairs(ps@, st2);
            (w1 + w2 + st3.close_words(), st3.closed())
        },
        Value::Variant(idx, scoped, fs) => if scoped {
            let (w1, st2) = enc_word(idx, st.opened());
            let (w2, st3) = enc_list(fs@, st2);
            (w1 + w2 + st3.close_words(), st3.closed())
        } else {
            let (w1, st1) = enc_word(idx, st);
            let (w2, st2) = enc_list(fs@, st1);
            (w1 + w2, st2)
        },
    }
}

/// Encoding a run of values, first to last.
pub open spec fn enc_list(vs: Seq<Value>, st: PackState) -> (Seq<u32>, PackState)
    decreases vs,
{
    if vs.len() == 0 {
        (Seq::empty(), st)
    } else {
        let (w1, st1) = enc(vs[0], st);
        let (w2, st2) = enc_list(vs.drop_first(), st1);
        (w1 + w2, st2)
    }
}

/// Encoding a run of map entries, each key then value.
pub open spec fn enc_pairs(ps: Seq<(Value, Value)>, st: PackState) -> (Seq<u32>, PackState)
    decreases ps,
{
    if ps.len() == 0 {
        (Seq::empty(), st)
    } else {
        let (w1, st1) = enc(ps[0].0, st);
        let (w2, st2) = enc(ps[0].1, st1);
        let (w3, st3) = enc_pairs(ps.drop_first(), st2);
        (w1 + w2 + w3, st3)
    }
}

/// Encoding preserves well-formedness and the nesting depth: every scope
/// a value opens, it closes.
pub proof fn lemma_enc_inv(v: Value, st: PackState)
    requires
        st.wf(),
    ensures
        enc(v, st).1.wf(),
        enc(v, st).1.depth == st.depth,
    decreases v,
{
    match v {
        Value::Opt(o) => match o {
            Option::None => {},
            Option::Some(b) => {
                lemma_enc_inv(*b, st.flushed());
            },
        },
        Value::List(vs) => {
            lemma_enc_list_inv(vs@, st.opened().flushed());
        },
        Value::Tuple(vs) => {
            lemma_enc_list_inv(vs@, st.opened());
        },
        Value::Dict(ps) => {
            lemma_enc_pairs_inv(ps@, st.opened().flushed());
        },
        Value::Variant(_idx, scoped, fs) => if scoped {
            lemma_enc_list_inv(fs@, st.opened().flushed());
        } else {
            lemma_enc_list_inv(fs@, st.flushed());
        },
        _ => {},
    }
}

pub proof fn lemma_enc_list_inv(vs: Seq<Value>, st: PackState)
    requires
        st.wf(),
    ensures
        enc_list(vs, st).1.wf(),
        enc_list(vs, st).1.depth == st.depth,
    decreases vs,
{
    if vs.len() > 0 {
        lemma_enc_inv(vs[0], st);
        lemma_enc_list_inv(vs.drop_first(), enc(vs[0], st).1);
    }
}

pub proof fn lemma_enc_pairs_inv(ps: Seq<(Value, Value)>, st: PackState)
    requires
        st.wf(),
    ensures
        enc_pairs(ps, st).1.wf(),
        enc_pairs(ps, st).1.depth == st.depth,
    decreases ps,
{
    if ps.len() > 0 {
        lemma_enc_inv(ps[0].0, st);
        lemma_enc_inv(ps[0].1, enc(ps[0].0, st).1);
        lemma_enc_pairs_inv(ps.drop_first(), enc(ps[0].1, enc(ps[0].0, st).1).1);
    }
}

/// Appending one value to a run encodes the run, then the value.
pub proof fn lemma_enc_list_snoc(vs: Seq<Value>, x: Value, st: PackState)
    ensures
        enc_list(vs.push(x), st).0 == enc_list(vs, st).0 + enc(x, enc_list(vs, st).1).0,
        enc_list(vs.push(x), st).1 == enc(x, enc_list(vs, st).1).1,
    decreases vs,
{
    if vs.len() == 0 {
        assert(vs.push(x).drop_first() =~= Seq::<Value>::empty());
        let st1 = enc(x, st).1;
        assert(enc_list(Seq::<Value>::empty(), st1) == (Seq::<u32>::empty(), st1));
        assert(enc_list(vs.push(x), st).0 =~= enc(x, st).0);
        assert(enc_list(vs, st).0 + enc(x, st).0 =~= enc(x, st).0);
    } else {
        assert(vs.push(x)[0] == vs[0]);
        assert(vs.push(x).drop_first() =~= vs.drop_first().push(x));
        let st1 = enc(vs[0], st).1;
        lemma_enc_list_snoc(vs.drop_first(), x, st1);
        let a = enc(vs[0], st).0;
        let b = enc_list(vs.drop_first(), st1).0;
        let c = enc(x, enc_list(vs.drop_first(), st1).1).0;
        assert(a + (b + c) =~= (a + b) + c);
    }
}

/// Appending one entry to a run of map entries encodes the run, then the
/// entry's key, then its value.
pub proof fn lemma_enc_pairs_snoc(ps: Seq<(Value, Value)>, x: (Value, Value), st: PackState)
    ensures
        ({
            let st1 = enc_pairs(ps, st).1;
            let st2 = enc(x.0, st1).1;
            &&& enc_pairs(ps.push(x), st).0 == enc_pairs(ps, st).0 + enc(x.0, st1).0
                + enc(x.1, st2).0
            &&& enc_pairs(ps.push(x), st).1 == enc(x.1, st2).1
        }),
    decreases ps,
{
    if ps.len() == 0 {
        assert(ps.push(x).drop_first() =~= Seq::<(Value, Value)>::empty());
        let stk = enc(x.0, st).1;
        let stv = enc(x.1, stk).1;
        assert(enc_pairs(Seq::<(Value, Value)>::empty(), stv) == (Seq::<u32>::empty(), stv));
        assert(enc(x.0, st).0 + enc(x.1, stk).0 + Seq::<u32>::empty()
            =~= enc(x.0, st).0 + enc(x.1, stk).0);
        assert(enc_pairs(ps, st).0 + enc(x.0, st).0 + enc(x.1, stk).0
            =~= enc(x.0, st).0 + enc(x.1, stk).0);
    } else {
        assert(ps.push(x)[0] == ps[0]);
        assert(ps.push(x).drop_first() =~= ps.drop_first().push(x));
        let stk = enc(ps[0].0, st).1;
        let stv = enc(ps[0].1, stk).1;
        lemma_enc_pairs_snoc(ps.drop_first(), x, stv);
        let a = enc(ps[0].0, st).0 + enc(ps[0].1, stk).0;
        let b = enc_pairs(ps.drop_first(), stv).0;
        let st1 = enc_pairs(ps.drop_first(), stv).1;
        let c = enc(x.0, st1).0;
        let d = enc(x.1, enc(x.0, st1).1).0;
        assert(a + (b + c + d) =~= (a + b) + c + d);
    }
}

/// The encoder: owns the word stream it writes and its packing state.
pub struct Serializer {
    stream: Vec<u32>,
    byte_handler: ByteHandler,
}

impl Serializer {
    /// The words written so far.
    pub closed spec fn out(self) -> Seq<u32> {
        self.stream@
    }

    /// The packing state the encoder is in.
    pub closed spec fn st(self) -> PackState {
        self.byte_handler.st()
    }

    pub closed spec fn wf(self) -> bool {
        self.byte_handler.wf()
    }

    /// A well-formed encoder is in a well-formed packing state.
    pub proof fn lemma_wf_st(self)
        requires
            self.wf(),
        ensures
            self.st().wf(),
    {
        crate::packer::lemma_handler_wf_st(self.byte_handler);
    }

    /// Construct a Serializer that appends to `stream`, starting with no
    /// scope open and no byte pending.
    pub fn new(stream: Vec<u32>) -> (r: Serializer)
        ensures
            r.wf(),
            r.out() == stream@,
            r.st() == PackState::init(),
    {
        Serializer { stream, byte_handler: ByteHandler::new() }
    }

    /// Hand back the word stream written so far.
    pub fn into_stream(self) -> (r: Vec<u32>)
        ensures
            r@ == self.out(),
    {
        self.stream
    }

    /// The wire format is not human readable.
    pub fn is_human_readable(&self) -> (r: bool)
        ensures
            r == false,
    {
        false
    }

    /// Rendering a value as free-form text is an unsupported construct.
    pub fn collect_str(&mut self) -> (r: Result<(), Error>)
        requires
            old(self).wf(),
        ensures
            final(self).wf(),
            r == Err::<(), Error>(Error::NotSupported),
            *final(self) == *old(self),
    {
        Err(Error::NotSupported)
    }

    /// A byte-packed value.
    pub fn serialize_u8(&mut self, v: u8) -> (r: Result<(), Error>)
        requires
            old(self).wf(),
        ensures
            final(self).wf(),
            r is Ok,
            final(self).out() == old(self).out() + enc_byte(v, old(self).st()).0,
            final(self).st() == enc_byte(v, old(self).st()).1,
    {
        self.byte_handler.handle(&mut self.stream, v)
    }

    /// A boolean travels as the byte 1 or 0.
    pub fn serialize_bool(&mut self, v: bool) -> (r: Result<(), Error>)
        requires
            old(self).wf(),
        ensures
            final(self).wf(),
            r is Ok,
            final(self).out() == old(self).out()
                + enc_byte(if v { 1 } else { 0 }, old(self).st()).0,
            final(self).st() == enc_byte(if v { 1 } else { 0 }, old(self).st()).1,
    {
        self.serialize_u8(if v { 1 } else { 0 })
    }

    /// One direct word: forced flush, then the word.
    pub fn serialize_u32(&mut self, v: u32) -> (r: Result<(), Error>)
        requires
            old(self).wf(),
        ensures
            final(self).wf(),
            r is Ok,
            final(self).out() == old(self).out() + enc_word(v, old(self).st()).0,
            final(self).st() == enc_word(v, old(self).st()).1,
    {
        let _ = self.byte_handler.reset(&mut self.stream);
        self.stream.push(v);
        proof {
            assert(self.stream@ =~= old(self).stream@ + enc_word(v, old(self).st()).0);
        }
        Ok(())
    }

    /// Widened to one direct word.
    pub fn serialize_u16(&mut self, v: u16) -> (r: Result<(), Error>)
        requires
            old(self).wf(),
        ensures
            final(self).wf(),
            r is Ok,
            final(self).out() == old(self).out() + enc_word(v as u32, old(self).st()).0,
            final(self).st() == enc_word(v as u32, old(self).st()).1,
    {
        self.serialize_u32(v as u32)
    }

    /// Widened to 32-bit two's complement, one direct word.
    pub fn serialize_i32(&mut self, v: i32) -> (r: Result<(), Error>)
        requires
            old(self).wf(),
        ensures
            final(self).wf(),
            r is Ok,
            final(self).out() == old(self).out() + enc_word(v as u32, old(self).st()).0,
            final(self).st() == enc_word(v as u32, old(self).st()).1,
    {
        self.serialize_u32(v as u32)
    }

    pub fn serialize_i8(&mut self, v: i8) -> (r: Result<(), Error>)
        requires
            old(self).wf(),
        ensures
            final(self).wf(),
            r is Ok,
            final(self).out() == old(self).out() + enc_word((v as i32) as u32, old(self).st()).0,
            final(self).st() == enc_word((v as i32) as u32, old(self).st()).1,
    {
        self.serialize_i32(v as i32)
    }

    pub fn serialize_i16(&mut self, v: i16) -> (r: Result<(), Error>)
        requires
            old(self).wf(),
        ensures
            final(self).wf(),
            r is Ok,
            final(self).out() == old(self).out() + enc_word((v as i32) as u32, old(self).st()).0,
            final(self).st() == enc_word((v as i32) as u32, old(self).st()).1,
    {
        self.serialize_i32(v as i32)
    }

    /// A character's code point, one direct word.
    pub fn serialize_char(&mut self, v: char) -> (r: Result<(), Error>)
        requires
            old(self).wf(),
        ensures
            final(self).wf(),
            r is Ok,
            final(self).out() == old(self).out() + enc_word(v as u32, old(self).st()).0,
            final(self).st() == enc_word(v as u32, old(self).st()).1,
    {
        self.serialize_u32(v as u32)
    }

    /// Two direct words, low half then high half, flushed once before the
    /// first half.
    pub fn serialize_u64(&mut self, v: u64) -> (r: Result<(), Error>)
        requires
            old(self).wf(),
        ensures
            final(self).wf(),
            r is Ok,
            final(self).out() == old(self).out() + old(self).st().flush_words()
                + seq![lo32(v), hi32(v)],
            final(self).st() == old(self).st().flushed(),
    {
        let _ = self.serialize_u32((v % 0x1_0000_0000) as u32);
        let _ = self.serialize_u32((v / 0x1_0000_0000) as u32);
        proof {
            assert(self.stream@ =~= old(self).stream@ + old(self).st().flush_words()
                + seq![lo32(v), hi32(v)]);
        }
        Ok(())
    }

    pub fn serialize_i64(&mut self, v: i64) -> (r: Result<(), Error>)
        requires
            old(self).wf(),
        ensures
            final(self).wf(),
            r is Ok,
            final(self).out() == old(self).out() + old(self).st().flush_words()
                + seq![lo32(v as u64), hi32(v as u64)],
            final(self).st() == old(self).st().flushed(),
    {
        self.serialize_u64(v as u64)
    }

    /// Sixteen raw bytes, least significant first: four direct words after
    /// one forced flush.
    pub fn serialize_u128(&mut self, v: u128) -> (r: Result<(), Error>)
        requires
            old(self).wf(),
        ensures
            final(self).wf(),
            r is Ok,
            final(self).out() == old(self).out() + old(self).st().flush_words() + quad_words(v),
            final(self).st() == old(self).st().flushed(),
    {
        let _ = self.byte_handler.reset(&mut self.stream);
        self.stream.push((v % 0x1_0000_0000) as u32);
        self.stream.push(((v / 0x1_0000_0000) % 0x1_0000_0000) as u32);
        self.stream.push(((v / 0x1_0000_0000_0000_0000) % 0x1_0000_0000) as u32);
        self.stream.push(((v / 0x1_0000_0000_0000_0000_0000_0000) % 0x1_0000_0000) as u32);
        proof {
            assert(self.stream@ =~= old(self).stream@ + old(self).st().flush_words()
                + quad_words(v));
        }
        Ok(())
    }

    pub fn serialize_i128(&mut self, v: i128) -> (r: Result<(), Error>)
        requires
            old(self).wf(),
        ensures
            final(self).wf(),
            r is Ok,
            final(self).out() == old(self).out() + old(self).st().flush_words()
                + quad_words(v as u128),
            final(self).st() == old(self).st().flushed(),
    {
        self.serialize_u128(v as u128)
    }

    /// A byte buffer: its count as one direct word, then the raw bytes
    /// zero-padded to the next word boundary.
    pub fn serialize_bytes(&mut self, v: &[u8]) -> (r: Result<(), Error>)
        requires
            old(self).wf(),
            v@.len() <= u32::MAX,
        ensures
            final(self).wf(),
            r is Ok,
            final(self).out() == old(self).out() + enc_bytes(v@, old(self).st()).0,
            final(self).st() == enc_bytes(v@, old(self).st()).1,
    {
        let n = v.len();
        let _ = self.serialize_u32(n as u32);
        let ghost base = self.stream@;
        let ghost h0 = self.byte_handler;
        let mut i: usize = 0;
        proof {
            assert(v@.skip(0) =~= v@);
        }
        while i < n
            invariant
                n == v@.len(),
                0 <= i <= n,
                i % 4 == 0 || i == n,
                self.byte_handler == h0,
                self.stream@ + words_of_bytes(v@.skip(i as int)) == base + words_of_bytes(v@),
            decreases n - i,
        {
            let b0 = v[i];
            let b1 = if i + 1 < n { v[i + 1] } else { 0 };
            let b2 = if i + 2 < n { v[i + 2] } else { 0 };
            let b3 = if i + 3 < n { v[i + 3] } else { 0 };
            let w = b0 as u32 + 0x100 * (b1 as u32) + 0x1_0000 * (b2 as u32)
                + 0x100_0000 * (b3 as u32);
            let ghost rest = v@.skip(i as int);
            let nxt = if n - i >= 4 { i + 4 } else { n };
            proof {
                let chunk = if rest.len() <= 4 { rest } else { rest.take(4) };
                crate::words::lemma_le_val_up_to_4(chunk);
                lemma_word_of_small(chunk);
                assert(word_of(chunk) == w);
                if rest.len() > 4 {
                    assert(v@.skip(i as int).skip(4) =~= v@.skip(i + 4));
                } else {
                    assert(v@.skip(nxt as int) =~= Seq::<u8>::empty());
                }
                assert(self.stream@.push(w) + words_of_bytes(v@.skip(nxt as int)) =~= self.stream@
                    + words_of_bytes(v@.skip(i as int)));
            }
            self.stream.push(w);
            i = nxt;
        }
        proof {
            assert(v@.skip(n as int) =~= Seq::<u8>::empty());
            assert(self.stream@ =~= base + words_of_bytes(v@));
            assert(self.stream@ =~= old(self).stream@ + enc_bytes(v@, old(self).st()).0);
        }
        Ok(())
    }

    /// Absence travels as the direct word 0.
    pub fn serialize_none(&mut self) -> (r: Result<(), Error>)
        requires
            old(self).wf(),
        ensures
            final(self).wf(),
            r is Ok,
            final(self).out() == old(self).out() + enc_word(0, old(self).st()).0,
            final(self).st() == enc_word(0, old(self).st()).1,
    {
        self.serialize_u32(0)
    }

    /// A unit-like value contributes nothing to the stream.
    pub fn serialize_unit(&mut self) -> (r: Result<(), Error>)
        requires
            old(self).wf(),
        ensures
            final(self).wf(),
            r is Ok,
            *final(self) == *old(self),
    {
        Ok(())
    }

    /// A payload-less variant is just its index, one direct word.
    pub fn serialize_unit_variant(&mut self, variant_index: u32) -> (r: Result<(), Error>)
        requires
            old(self).wf(),
        ensures
            final(self).wf(),
            r is Ok,
            final(self).out() == old(self).out() + enc_word(variant_index, old(self).st()).0,
            final(self).st() == enc_word(variant_index, old(self).st()).1,
    {
        self.serialize_u32(variant_index)
    }

    /// A sequence of known length: open a scope and write the count. A
    /// sequence of unknown length is an unsupported construct and writes
    /// nothing.
    pub fn serialize_seq(&mut self, len: Option<usize>) -> (r: Result<(), Error>)
        requires
            old(self).wf(),
            old(self).st().depth < usize::MAX,
            len matches Some(n) ==> n <= u32::MAX,
        ensures
            final(self).wf(),
            match len {
                Some(n) => {
                    &&& r is Ok
                    &&& final(self).out() == old(self).out()
                        + enc_word(n as u32, old(self).st().opened()).0
                    &&& final(self).st() == old(self).st().opened().flushed()
                },
                None => {
                    &&& r == Err::<(), Error>(Error::NotSupported)
                    &&& *final(self) == *old(self)
                },
            },
    {
        match len {
            Some(val) => {
                let _ = self.byte_handler.increase_depth();
                self.serialize_u32(val as u32)
            },
            None => Err(Error::NotSupported),
        }
    }

    /// A map of known length behaves exactly like a sequence of entries.
    pub fn serialize_map(&mut self, len: Option<usize>) -> (r: Result<(), Error>)
        requires
            old(self).wf(),
            old(self).st().depth < usize::MAX,
            len matches Some(n) ==> n <= u32::MAX,
        ensures
            final(self).wf(),
            match len {
                Some(n) => {
                    &&& r is Ok
                    &&& final(self).out() == old(self).out()
                        + enc_word(n as u32, old(self).st().opened()).0
                    &&& final(self).st() == old(self).st().opened().flushed()
                },
                None => {
                    &&& r == Err::<(), Error>(Error::NotSupported)
                    &&& *final(self) == *old(self)
                },
            },
    {
        self.serialize_seq(len)
    }

    /// A fixed aggregate opens a scope and writes no count: its width is
    /// statically known to both sides.
    pub fn serialize_tuple(&mut self) -> (r: Result<(), Error>)
        requires
            old(self).wf(),
            old(self).st().depth < usize::MAX,
        ensures
            final(self).wf(),
            r is Ok,
            final(self).out() == old(self).out(),
            final(self).st() == old(self).st().opened(),
    {
        self.byte_handler.increase_depth()
    }

    /// A struct encodes exactly like a tuple of its fields.
    pub fn serialize_struct(&mut self) -> (r: Result<(), Error>)
        requires
            old(self).wf(),
            old(self).st().depth < usize::MAX,
        ensures
            final(self).wf(),
            r is Ok,
            final(self).out() == old(self).out(),
            final(self).st() == old(self).st().opened(),
    {
        self.byte_handler.increase_depth()
    }

    /// A variant with payload: open its scope and write the discriminant
    /// as one direct word.
    pub fn serialize_tuple_variant(&mut self, variant_index: u32) -> (r: Result<(), Error>)
        requires
            old(self).wf(),
            old(self).st().depth < usize::MAX,
        ensures
            final(self).wf(),
            r is Ok,
            final(self).out() == old(self).out()
                + enc_word(variant_index, old(self).st().opened()).0,
            final(self).st() == old(self).st().opened().flushed(),
    {
        let _ = self.byte_handler.increase_depth();
        self.serialize_u32(variant_index)
    }

    /// A struct variant encodes exactly like a tuple variant.
    pub fn serialize_struct_variant(&mut self, variant_index: u32) -> (r: Result<(), Error>)
        requires
            old(self).wf(),
            old(self).st().depth < usize::MAX,
        ensures
            final(self).wf(),
            r is Ok,
            final(self).out() == old(self).out()
                + enc_word(variant_index, old(self).st().opened()).0,
            final(self).st() == old(self).st().opened().flushed(),
    {
        self.serialize_tuple_variant(variant_index)
    }

    /// Close the innermost open scope; flushes pending bytes when the
    /// depth returns to zero.
    pub fn end(&mut self) -> (r: Result<(), Error>)
        requires
            old(self).wf(),
            old(self).st().depth > 0,
        ensures
            final(self).wf(),
            r is Ok,
            final(self).out() == old(self).out() + old(self).st().close_words(),
            final(self).st() == old(self).st().closed(),
    {
        self.byte_handler.decrease_depth(&mut self.stream)
    }

    /// Encode one whole value: the traversal driver.
    #[verifier::loop_isolation(false)]
    pub fn encode_value(&mut self, v: &Value)
        requires
            old(self).wf(),
            wf_value(*v),
            old(self).st().depth + vheight(*v) <= usize::MAX,
        ensures
            final(self).wf(),
            final(self).out() == old(self).out() + enc(*v, old(self).st()).0,
            final(self).st() == enc(*v, old(self).st()).1,
        decreases vsize(*v),
    {
        match v {
            Value::Bool(b) => {
                let _ = self.serialize_bool(*b);
            },
            Value::U8(x) => {
                let _ = self.serialize_u8(*x);
            },
            Value::U16(x) => {
                let _ = self.serialize_u16(*x);
            },
            Value::U32(x) => {
                let _ = self.serialize_u32(*x);
            },
            Value::U64(x) => {
                let _ = self.serialize_u64(*x);
            },
            Value::U128(x) => {
                let _ = self.serialize_u128(*x);
            },
            Value::I8(x) => {
                let _ = self.serialize_i8(*x);
            },
            Value::I16(x) => {
                let _ = self.serialize_i16(*x);
            },
            Value::I32(x) => {
                let _ = self.serialize_i32(*x);
            },
            Value::I64(x) => {
                let _ = self.serialize_i64(*x);
            },
            Value::I128(x) => {
                let _ = self.serialize_i128(*x);
            },
            Value::F32Bits(w) => {
                let _ = self.serialize_u32(*w);
            },
            Value::F64Bits(x) => {
                let _ = self.serialize_u64(*x);
            },
            Value::Char(c) => {
                let _ = self.serialize_char(*c);
            },
            Value::Text(bs) => {
                let _ = self.serialize_bytes(bs.as_slice());
            },
            Value::Bytes(bs) => {
                let _ = self.serialize_bytes(bs.as_slice());
            },
            Value::Opt(o) => match o {
                Option::None => {
                    let _ = self.serialize_none();
                },
                Option::Some(b) => {
                    let _ = self.serialize_u32(1);
                    self.encode_value(&**b);
                    proof {
                        let (w1, st1) = enc_word(1, old(self).st());
                        assert(old(self).out() + w1 + enc(**b, st1).0 =~= old(self).out() + (w1
                            + enc(**b, st1).0));
                    }
                },
            },
            Value::Unit => {
                proof {
                    assert(old(self).out() + enc(*v, old(self).st()).0 =~= old(self).out());
                }
            },
            Value::List(vs) => {
                proof {
                    old(self).lemma_wf_st();
                }
                let n = vs.len();
                let _ = self.serialize_seq(Some(n));
                let ghost st2 = old(self).st().opened().flushed();
                let ghost w1 = enc_word(n as u32, old(self).st().opened()).0;
                let ghost base = self.out();
                let mut i: usize = 0;
                while i < n
                    invariant
                        self.wf(),
                        n == vs@.len(),
                        0 <= i <= n,
                        wf_list(vs@),
                        st2.wf(),
                        old(self).st().depth + vheight(*v) <= usize::MAX,
                        st2.depth == old(self).st().depth + 1,
                        vheight(*v) >= 1 + vheight_list(vs@),
                        base == old(self).out() + w1,
                        self.out() == base + enc_list(vs@.take(i as int), st2).0,
                        self.st() == enc_list(vs@.take(i as int), st2).1,
                    decreases n - i,
                {
                    proof {
                        lemma_wf_list_at(vs@, i as int);
                        lemma_vheight_list_at(vs@, i as int);
                        lemma_enc_list_inv(vs@.take(i as int), st2);
                        lemma_vsize_list_at(vs@, i as int);
                    }
                    self.encode_value(&vs[i]);
                    proof {
                        lemma_enc_list_snoc(vs@.take(i as int), vs@[i as int], st2);
                        assert(vs@.take(i + 1) =~= vs@.take(i as int).push(vs@[i as int]));
                        assert(self.out() =~= base + enc_list(vs@.take(i + 1), st2).0);
                    }
                    i = i + 1;
                }
                proof {
                    assert(vs@.take(n as int) =~= vs@);
                    lemma_enc_list_inv(vs@, st2);
                }
                let _ = self.end();
                proof {
                    let (w2, st3) = enc_list(vs@, st2);
                    assert(self.out() =~= old(self).out() + (w1 + w2 + st3.close_words()));
                }
            },
            Value::Tuple(vs) => {
                proof {
                    old(self).lemma_wf_st();
                }
                let n = vs.len();
                let _ = self.serialize_tuple();
                let ghost st2 = old(self).st().opened();
                let ghost base = self.out();
                let mut i: usize = 0;
                while i < n
                    invariant
                        self.wf(),
                        n == vs@.len(),
                        0 <= i <= n,
                        wf_list(vs@),
                        st2.wf(),
                        old(self).st().depth + vheight(*v) <= usize::MAX,
                        st2.depth == old(self).st().depth + 1,
                        vheight(*v) >= 1 + vheight_list(vs@),
                        base == old(self).out(),
                        self.out() == base + enc_list(vs@.take(i as int), st2).0,
                        self.st() == enc_list(vs@.take(i as int), st2).1,
                    decreases n - i,
                {
                    proof {
                        lemma_wf_list_at(vs@, i as int);
                        lemma_vheight_list_at(vs@, i as int);
                        lemma_enc_list_inv(vs@.take(i as int), st2);
                        lemma_vsize_list_at(vs@, i as int);
                    }
                    self.encode_value(&vs[i]);
                    proof {
                        lemma_enc_list_snoc(vs@.take(i as int), vs@[i as int], st2);
                        assert(vs@.take(i + 1) =~= vs@.take(i as int).push(vs@[i as int]));
                        assert(self.out() =~= base + enc_list(vs@.take(i + 1), st2).0);
                    }
                    i = i + 1;
                }
                proof {
                    assert(vs@.take(n as int) =~= vs@);
                    lemma_enc_list_inv(vs@, st2);
                }
                let _ = self.end();
                proof {
                    let (w2, st3) = enc_list(vs@, st2);
                    assert(self.out() =~= old(self).out() + (w2 + st3.close_words()));
                }
            },
            Value::Dict(ps) => {
                proof {
                    old(self).lemma_wf_st();
                }
                let n = ps.len();
                let _ = self.serialize_map(Some(n));
                let ghost st2 = old(self).st().opened().flushed();
                let ghost w1 = enc_word(n as u32, old(self).st().opened()).0;
                let ghost base = self.out();
                let mut i: usize = 0;
                while i < n
                    invariant
                        self.wf(),
                        n == ps@.len(),
                        0 <= i <= n,
                        wf_pairs(ps@),
                        st2.wf(),
                        old(self).st().depth + vheight(*v) <= usize::MAX,
                        st2.depth == old(self).st().depth + 1,
                        vheight(*v) >= 1 + vheight_pairs(ps@),
                        base == old(self).out() + w1,
                        self.out() == base + enc_pairs(ps@.take(i as int), st2).0,
                        self.st() == enc_pairs(ps@.take(i as int), st2).1,
                    decreases n - i,
                {
                    proof {
                        lemma_wf_pairs_at(ps@, i as int);
                        lemma_vheight_pairs_at(ps@, i as int);
                        lemma_enc_pairs_inv(ps@.take(i as int), st2);
                        lemma_vsize_pairs_at(ps@, i as int);
                    }
                    self.encode_value(&ps[i].0);
                    proof {
                        lemma_enc_inv(ps@[i as int].0, enc_pairs(ps@.take(i as int), st2).1);
                    }
                    self.encode_value(&ps[i].1);
                    proof {
                        lemma_enc_pairs_snoc(ps@.take(i as int), ps@[i as int], st2);
                        assert(ps@.take(i + 1) =~= ps@.take(i as int).push(ps@[i as int]));
                        assert(self.out() =~= base + enc_pairs(ps@.take(i + 1), st2).0);
                    }
                    i = i + 1;
                }
                proof {
                    assert(ps@.take(n as int) =~= ps@);
                    lemma_enc_pairs_inv(ps@, st2);
                }
                let _ = self.end();
                proof {
                    let (w2, st3) = enc_pairs(ps@, st2);
                    assert(self.out() =~= old(self).out() + (w1 + w2 + st3.close_words()));
                }
            },
            Value::Variant(idx, scoped, fs) => {
                proof {
                    old(self).lemma_wf_st();
                }
                let n = fs.len();
                if *scoped {
                    let _ = self.serialize_tuple_variant(*idx);
                } else {
                    let _ = self.serialize_unit_variant(*idx);
                }
                let ghost st2 = if *scoped {
                    old(self).st().opened().flushed()
                } else {
                    old(self).st().flushed()
                };
                let ghost w1 = if *scoped {
                    enc_word(*idx, old(self).st().opened()).0
                } else {
                    enc_word(*idx, old(self).st()).0
                };
                let ghost base = self.out();
                let mut i: usize = 0;
                while i < n
                    invariant
                        self.wf(),
                        n == fs@.len(),
                        0 <= i <= n,
                        wf_list(fs@),
                        st2.wf(),
                        old(self).st().depth + vheight(*v) <= usize::MAX,
                        st2.depth == old(self).st().depth + if *scoped { 1int } else { 0 },
                        vheight(*v) >= (if *scoped { 1int } else { 0 }) + vheight_list(fs@),
                        base == old(self).out() + w1,
                        self.out() == base + enc_list(fs@.take(i as int), st2).0,
                        self.st() == enc_list(fs@.take(i as int), st2).1,
                    decreases n - i,
                {
                    proof {
                        lemma_wf_list_at(fs@, i as int);
                        lemma_vheight_list_at(fs@, i as int);
                        lemma_enc_list_inv(fs@.take(i as int), st2);
                        lemma_vsize_list_at(fs@, i as int);
                    }
                    self.encode_value(&fs[i]);
                    proof {
                        lemma_enc_list_snoc(fs@.take(i as int), fs@[i as int], st2);
                        assert(fs@.take(i + 1) =~= fs@.take(i as int).push(fs@[i as int]));
                        assert(self.out() =~= base + enc_list(fs@.take(i + 1), st2).0);
                    }
                    i = i + 1;
                }
                proof {
                    assert(fs@.take(n as int) =~= fs@);
                    lemma_enc_list_inv(fs@, st2);
                }
                if *scoped {
                    let _ = self.end();
                    proof {
                        let (w2, st3) = enc_list(fs@, st2);
                        assert(self.out() =~= old(self).out() + (w1 + w2 + st3.close_words()));
                    }
                } else {
                    proof {
                        let (w2, st3) = enc_list(fs@, st2);
                        assert(self.out() =~= old(self).out() + (w1 + w2));
                    }
                }
            },
        }
    }
}

/// Encode one value to a fresh word buffer.
pub fn to_vec_compact(value: &Value) -> (r: Result<Vec<u32>, Error>)
    requires
        wf_value(*value),
        vheight(*value) <= usize::MAX,
    ensures
        r matches Ok(w) && w@ == enc(*value, PackState::init()).0,
{
    let mut s = Serializer::new(Vec::new());
    s.encode_value(value);
    let out = s.into_stream();
    proof {
        assert(out@ =~= enc(*value, PackState::init()).0);
    }
    Ok(out)
}

/// Encode one value to a fresh word buffer with a capacity hint; the hint
/// never affects the words produced.
pub fn to_vec_compact_with_capacity(value: &Value, cap: usize) -> (r: Result<Vec<u32>, Error>)
    requires
        wf_value(*value),
        vheight(*value) <= usize::MAX,
    ensures
        r matches Ok(w) && w@ == enc(*value, PackState::init()).0,
{
    let mut s = Serializer::new(Vec::with_capacity(cap));
    s.encode_value(value);
    let out = s.into_stream();
    proof {
        assert(out@ =~= enc(*value, PackState::init()).0);
    }
    Ok(out)
}

} // verus!
