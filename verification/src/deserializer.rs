//! The decoder: the exact inverse of the encoder, reading the same
//! logical shapes back out of a word stream while replaying the
//! byte-packing rules in reverse.

use vstd::prelude::*;
use crate::err::Error;
use crate::value::{
    Value, SpecVal, view_value, view_list, view_pairs, lemma_view_list_push,
    lemma_view_pairs_push, ssize, ssize_fields, ssize_vars, lemma_ssize_pos,
    lemma_ssize_fields_at, lemma_ssize_vars_at, sheight, sheight_fields, sheight_vars,
    lemma_sheight_fields_at, lemma_sheight_vars_at, Shape,
};
use crate::words::{byte_at, pow256};

verus! {

/// Relies on char::from_u32: it returns Some exactly for Unicode scalar
/// values, and the returned character's code point is the argument.
pub assume_specification[ char::from_u32 ](u: u32) -> (r: Option<char>)
    ensures
        r is Some <==> vstd::utf8::is_scalar(u),
        r matches Some(c) ==> c as u32 == u,
;

/// The read-side packing state: the nesting depth, how many bytes of the
/// held word have already been handed out, and the held word itself.
pub ghost struct ReadState {
    pub depth: nat,
    pub rfill: nat,
    pub held: u32,
}

impl ReadState {
    /// The state a fresh decoder starts in.
    pub open spec fn init() -> ReadState {
        ReadState { depth: 0, rfill: 0, held: 0 }
    }

    pub open spec fn wf(self) -> bool {
        &&& self.rfill < 4
        &&& (self.depth == 0 ==> self.rfill == 0)
        &&& (self.rfill == 0 ==> self.held == 0)
    }

    /// The state after opening one more scope.
    pub open spec fn opened(self) -> ReadState {
        ReadState { depth: self.depth + 1, rfill: self.rfill, held: self.held }
    }

    /// The state after closing a scope: returning to depth zero discards
    /// the partially consumed word, mirroring the write-side flush.
    pub open spec fn closed(self) -> ReadState
        recommends
            self.depth > 0,
    {
        if self.depth <= 1 {
            ReadState { depth: 0, rfill: 0, held: 0 }
        } else {
            ReadState { depth: (self.depth - 1) as nat, rfill: self.rfill, held: self.held }
        }
    }
}

/// Reading one byte-packed value: a whole word truncated outside any
/// scope, the next lane of the held word otherwise, refilling from the
/// stream when no lane is left.
pub open spec fn dec_byte(ws: Seq<u32>, i: int, st: ReadState) -> Result<
    (u8, int, ReadState),
    Error,
> {
    if st.depth == 0 {
        if i < ws.len() {
            Ok((byte_at(ws[i] as int, 0) as u8, i + 1, st))
        } else {
            Err(Error::UnexpectedEnd)
        }
    } else if st.rfill == 0 {
        if i < ws.len() {
            Ok((
                byte_at(ws[i] as int, 0) as u8,
                i + 1,
                ReadState { depth: st.depth, rfill: 1, held: ws[i] },
            ))
        } else {
            Err(Error::UnexpectedEnd)
        }
    } else {
        let b = byte_at(st.held as int, st.rfill) as u8;
        if st.rfill == 3 {
            Ok((b, i, ReadState { depth: st.depth, rfill: 0, held: 0 }))
        } else {
            Ok((b, i, ReadState { depth: st.depth, rfill: st.rfill + 1, held: st.held }))
        }
    }
}

/// Reading one directly word-encoded value: discard any stale partial
/// word, mirroring the write-side forced flush, then take the next word.
pub open spec fn dec_word(ws: Seq<u32>, i: int, st: ReadState) -> Result<
    (u32, int, ReadState),
    Error,
> {
    if i < ws.len() {
        Ok((ws[i], i + 1, ReadState { depth: st.depth, rfill: 0, held: 0 }))
    } else {
        Err(Error::UnexpectedEnd)
    }
}

/// Reading a 128-bit value: four words, least significant first.
pub open spec fn dec_quad(ws: Seq<u32>, i: int, st: ReadState) -> Result<
    (u128, int, ReadState),
    Error,
> {
    if i + 4 <= ws.len() {
        Ok((
            (ws[i] as u128 + (ws[i + 1] as u128) * 0x1_0000_0000 + (ws[i + 2] as u128)
                * 0x1_0000_0000_0000_0000 + (ws[i + 3] as u128)
                * 0x1_0000_0000_0000_0000_0000_0000) as u128,
            i + 4,
            ReadState { depth: st.depth, rfill: 0, held: 0 },
        ))
    } else {
        Err(Error::UnexpectedEnd)
    }
}

/// Reading `n` raw bytes zero-padded to the next word boundary.
pub open spec fn dec_padded(ws: Seq<u32>, i: int, st: ReadState, n: nat) -> Result<
    (Seq<u8>, int, ReadState),
    Error,
> {
    let k = (n + 3) / 4;
    if i + k <= ws.len() {
        Ok((
            Seq::new(n, |j: int| byte_at(ws[i + j / 4] as int, (j % 4) as nat) as u8),
            i + k,
            ReadState { depth: st.depth, rfill: 0, held: 0 },
        ))
    } else {
        Err(Error::UnexpectedEnd)
    }
}

/// What decoding shape `sh` from position `i` of word stream `ws` in
/// state `st` yields: the value, the next position, and the state left
/// behind. This spec function is the read side of the wire format.
pub open spec fn dec(sh: Shape, ws: Seq<u32>, i: int, st: ReadState) -> Result<
    (SpecVal, int, ReadState),
    Error,
>
    decreases ssize(sh), 0nat,
    via dec_decreases
{
    match sh {
        Shape::Bool => match dec_byte(ws, i, st) {
            Ok((b, j, st1)) => if b == 0 {
                Ok((SpecVal::Bool(false), j, st1))
            } else if b == 1 {
                Ok((SpecVal::Bool(true), j, st1))
            } else {
                Err(Error::BadBool)
            },
            Err(e) => Err(e),
        },
        Shape::U8 => match dec_byte(ws, i, st) {
            Ok((b, j, st1)) => Ok((SpecVal::U8(b), j, st1)),
            Err(e) => Err(e),
        },
        Shape::U16 => match dec_word(ws, i, st) {
            Ok((w, j, st1)) => Ok((SpecVal::U16(w as u16), j, st1)),
            Err(e) => Err(e),
        },
        Shape::U32 => match dec_word(ws, i, st) {
            Ok((w, j, st1)) => Ok((SpecVal::U32(w), j, st1)),
            Err(e) => Err(e),
        },
        Shape::U64 => match dec_word(ws, i, st) {
            Ok((lo, j, st1)) => match dec_word(ws, j, st1) {
                Ok((hi, k, st2)) => Ok((
                    SpecVal::U64((lo as u64 + (hi as u64) * 0x1_0000_0000) as u64),
                    k,
                    st2,
                )),
                Err(e) => Err(e),
            },
            Err(e) => Err(e),
        },
        Shape::U128 => match dec_quad(ws, i, st) {
            Ok((x, j, st1)) => Ok((SpecVal::U128(x), j, st1)),
            Err(e) => Err(e),
        },
        Shape::I8 => match dec_word(ws, i, st) {
            Ok((w, j, st1)) => Ok((SpecVal::I8(w as i8), j, st1)),
            Err(e) => Err(e),
        },
        Shape::I16 => match dec_word(ws, i, st) {
            Ok((w, j, st1)) => Ok((SpecVal::I16(w as i16), j, st1)),
            Err(e) => Err(e),
        },
        Shape::I32 => match dec_word(ws, i, st) {
            Ok((w, j, st1)) => Ok((SpecVal::I32(w as i32), j, st1)),
            Err(e) => Err(e),
        },
        Shape::I64 => match dec_word(ws, i, st) {
            Ok((lo, j, st1)) => match dec_word(ws, j, st1) {
                Ok((hi, k, st2)) => Ok((
                    SpecVal::I64(((lo as u64 + (hi as u64) * 0x1_0000_0000) as u64) as i64),
                    k,
                    st2,
                )),
                Err(e) => Err(e),
            },
            Err(e) => Err(e),
        },
        Shape::I128 => match dec_quad(ws, i, st) {
            Ok((x, j, st1)) => Ok((SpecVal::I128(x as i128), j, st1)),
            Err(e) => Err(e),
        },
        Shape::F32 => match dec_word(ws, i, st) {
            Ok((w, j, st1)) => Ok((SpecVal::F32Bits(w), j, st1)),
            Err(e) => Err(e),
        },
        Shape::F64 => match dec_word(ws, i, st) {
            Ok((lo, j, st1)) => match dec_word(ws, j, st1) {
                Ok((hi, k, st2)) => Ok((
                    SpecVal::F64Bits((lo as u64 + (hi as u64) * 0x1_0000_0000) as u64),
                    k,
                    st2,
                )),
                Err(e) => Err(e),
            },
            Err(e) => Err(e),
        },
        Shape::Char => match dec_word(ws, i, st) {
            Ok((w, j, st1)) => if vstd::utf8::is_scalar(w) {
                Ok((SpecVal::Char(w as char), j, st1))
            } else {
                Err(Error::BadChar)
            },
            Err(e) => Err(e),
        },
        Shape::Text => match dec_word(ws, i, st) {
            Ok((n, j, st1)) => match dec_padded(ws, j, st1, n as nat) {
                Ok((bs, k, st2)) => Ok((SpecVal::Text(bs), k, st2)),
                Err(e) => Err(e),
            },
            Err(e) => Err(e),
        },
        Shape::Bytes => match dec_word(ws, i, st) {
            Ok((n, j, st1)) => match dec_padded(ws, j, st1, n as nat) {
                Ok((bs, k, st2)) => Ok((SpecVal::Bytes(bs), k, st2)),
                Err(e) => Err(e),
            },
            Err(e) => Err(e),
        },
        Shape::Opt(inner) => match dec_word(ws, i, st) {
            Ok((t, j, st1)) => if t == 0 {
                Ok((SpecVal::Opt(Option::None), j, st1))
            } else if t == 1 {
                match dec(*inner, ws, j, st1) {
                    Ok((x, k, st2)) => Ok((SpecVal::Opt(Option::Some(Box::new(x))), k, st2)),
                    Err(e) => Err(e),
                }
            } else {
                Err(Error::BadOption)
            },
            Err(e) => Err(e),
        },
        Shape::Unit => Ok((SpecVal::Unit, i, st)),
        Shape::List(esh) => match dec_word(ws, i, st.opened()) {
            Ok((n, j, st1)) => match dec_list(*esh, n as nat, ws, j, st1) {
                Ok((xs, k, st2)) => Ok((SpecVal::List(xs), k, st2.closed())),
                Err(e) => Err(e),
            },
            Err(e) => Err(e),
        },
        Shape::Tuple(shs) => match dec_fields(shs@, ws, i, st.opened()) {
            Ok((xs, k, st2)) => Ok((SpecVal::Tuple(xs), k, st2.closed())),
            Err(e) => Err(e),
        },
        Shape::Dict(ksh, vsh) => match dec_word(ws, i, st.opened()) {
            Ok((n, j, st1)) => match dec_pairs(*ksh, *vsh, n as nat, ws, j, st1) {
                Ok((xs, k, st2)) => Ok((SpecVal::Dict(xs), k, st2.closed())),
                Err(e) => Err(e),
            },
            Err(e) => Err(e),
        },
        Shape::Enum(vars) => match dec_word(ws, i, st) {
            Ok((idx, j, st1)) => if (idx as int) < vars@.len() {
                let var = vars@[idx as int];
                if var.scoped {
                    match dec_fields(var.fields@, ws, j, st1.opened()) {
                        Ok((xs, k, st2)) => Ok((SpecVal::Variant(idx, true, xs), k, st2.closed())),
                        Err(e) => Err(e),
                    }
                } else {
                    match dec_fields(var.fields@, ws, j, st1) {
                        Ok((xs, k, st2)) => Ok((SpecVal::Variant(idx, false, xs), k, st2)),
                        Err(e) => Err(e),
                    }
                }
            } else {
                Err(Error::BadVariant)
            },
            Err(e) => Err(e),
        },
    }
}

#[via_fn]
proof fn dec_decreases(sh: Shape, ws: Seq<u32>, i: int, st: ReadState) {
    match sh {
        Shape::Enum(vars) => {
            assert forall|k: int| 0 <= k < vars@.len() implies ssize_fields(
                vars@[k].fields@,
            ) < 1 + ssize_vars(vars@) by {
                lemma_ssize_vars_at(vars@, k);
            }
        },
        _ => {},
    }
}

/// Decoding `n` values of one shape, in order.
pub open spec fn dec_list(esh: Shape, n: nat, ws: Seq<u32>, i: int, st: ReadState) -> Result<
    (Seq<SpecVal>, int, ReadState),
    Error,
>
    decreases ssize(esh), n,
{
    if n == 0 {
        Ok((Seq::empty(), i, st))
    } else {
        match dec(esh, ws, i, st) {
            Ok((x, j, st1)) => match dec_list(esh, (n - 1) as nat, ws, j, st1) {
                Ok((xs, k, st2)) => Ok((seq![x] + xs, k, st2)),
                Err(e) => Err(e),
            },
            Err(e) => Err(e),
        }
    }
}

/// Decoding a run of fields, each of its own shape, in declaration order.
pub open spec fn dec_fields(shs: Seq<Shape>, ws: Seq<u32>, i: int, st: ReadState) -> Result<
    (Seq<SpecVal>, int, ReadState),
    Error,
>
    decreases ssize_fields(shs), shs.len(),
    via dec_fields_decreases
{
    if shs.len() == 0 {
        Ok((Seq::empty(), i, st))
    } else {
        match dec(shs[0], ws, i, st) {
            Ok((x, j, st1)) => match dec_fields(shs.drop_first(), ws, j, st1) {
                Ok((xs, k, st2)) => Ok((seq![x] + xs, k, st2)),
                Err(e) => Err(e),
            },
            Err(e) => Err(e),
        }
    }
}

#[via_fn]
proof fn dec_fields_decreases(shs: Seq<Shape>, ws: Seq<u32>, i: int, st: ReadState) {
    if shs.len() > 0 {
        lemma_ssize_pos(shs[0]);
        assert(shs.drop_first().len() < shs.len());
    }
}

/// Decoding `n` map entries, each key then value.
pub open spec fn dec_pairs(
    ksh: Shape,
    vsh: Shape,
    n: nat,
    ws: Seq<u32>,
    i: int,
    st: ReadState,
) -> Result<(Seq<(SpecVal, SpecVal)>, int, ReadState), Error>
    decreases ssize(ksh) + ssize(vsh), n,
    via dec_pairs_decreases
{
    if n == 0 {
        Ok((Seq::empty(), i, st))
    } else {
        match dec(ksh, ws, i, st) {
            Ok((x, j, st1)) => match dec(vsh, ws, j, st1) {
                Ok((y, j2, st2)) => match dec_pairs(ksh, vsh, (n - 1) as nat, ws, j2, st2) {
                    Ok((xs, k, st3)) => Ok((seq![(x, y)] + xs, k, st3)),
                    Err(e) => Err(e),
                },
                Err(e) => Err(e),
            },
            Err(e) => Err(e),
        }
    }
}

#[via_fn]
proof fn dec_pairs_decreases(ksh: Shape, vsh: Shape, n: nat, ws: Seq<u32>, i: int, st: ReadState) {
    lemma_ssize_pos(ksh);
    lemma_ssize_pos(vsh);
}

/// Extract byte lane `k` of word `w`.
fn lane_of(w: u32, k: u8) -> (r: u8)
    requires
        k < 4,
    ensures
        r == byte_at(w as int, k as nat),
{
    let d: u32 = if k == 0 {
        1
    } else if k == 1 {
        0x100
    } else if k == 2 {
        0x1_0000
    } else {
        0x100_0000
    };
    proof {
        assert(pow256(0) == 1);
        assert(pow256(1) == 256);
        assert(pow256(2) == 0x1_0000);
        assert(pow256(3) == 0x100_0000);
    }
    ((w / d) % 256) as u8
}

/// The decoder: reads a borrowed word stream while replaying the
/// byte-packing rules.
pub struct Deserializer<'a> {
    words: &'a [u32],
    pos: usize,
    depth: usize,
    rfill: u8,
    held: u32,
}

impl<'a> Deserializer<'a> {
    /// The word stream being read.
    pub closed spec fn src(self) -> Seq<u32> {
        self.words@
    }

    /// The next position to read.
    pub closed spec fn pos_i(self) -> int {
        self.pos as int
    }

    /// The read-side packing state.
    pub closed spec fn rst(self) -> ReadState {
        ReadState { depth: self.depth as nat, rfill: self.rfill as nat, held: self.held }
    }

    pub closed spec fn wf(self) -> bool {
        &&& self.pos <= self.words@.len()
        &&& self.rst().wf()
    }

    /// Construct a decoder over `words`, starting at the beginning with
    /// no scope open and no byte pending.
    pub fn new(words: &'a [u32]) -> (r: Deserializer<'a>)
        ensures
            r.wf(),
            r.src() == words@,
            r.pos_i() == 0,
            r.rst() == ReadState::init(),
    {
        Deserializer { words, pos: 0, depth: 0, rfill: 0, held: 0 }
    }

    /// Read one direct word, discarding any stale partial word first.
    fn read_word(&mut self) -> (r: Result<u32, Error>)
        requires
            old(self).wf(),
        ensures
            final(self).wf(),
            final(self).src() == old(self).src(),
            final(self).rst().depth == old(self).rst().depth,
            ({
                let d = dec_word(old(self).src(), old(self).pos_i(), old(self).rst());
                match r {
                    Ok(w) => d == Ok::<(u32, int, ReadState), Error>(
                        (w, final(self).pos_i(), final(self).rst()),
                    ),
                    Err(e) => d == Err::<(u32, int, ReadState), Error>(e),
                }
            }),
    {
        if self.pos < self.words.len() {
            let w = self.words[self.pos];
            self.pos = self.pos + 1;
            self.rfill = 0;
            self.held = 0;
            Ok(w)
        } else {
            Err(Error::UnexpectedEnd)
        }
    }

    /// Read one byte-packed value.
    fn read_byte(&mut self) -> (r: Result<u8, Error>)
        requires
            old(self).wf(),
        ensures
            final(self).wf(),
            final(self).src() == old(self).src(),
            final(self).rst().depth == old(self).rst().depth,
            ({
                let d = dec_byte(old(self).src(), old(self).pos_i(), old(self).rst());
                match r {
                    Ok(b) => d == Ok::<(u8, int, ReadState), Error>(
                        (b, final(self).pos_i(), final(self).rst()),
                    ),
                    Err(e) => d == Err::<(u8, int, ReadState), Error>(e),
                }
            }),
    {
        if self.depth == 0 {
            if self.pos < self.words.len() {
                let w = self.words[self.pos];
                self.pos = self.pos + 1;
                Ok(lane_of(w, 0))
            } else {
                Err(Error::UnexpectedEnd)
            }
        } else if self.rfill == 0 {
            if self.pos < self.words.len() {
                let w = self.words[self.pos];
                self.pos = self.pos + 1;
                self.held = w;
                self.rfill = 1;
                Ok(lane_of(w, 0))
            } else {
                Err(Error::UnexpectedEnd)
            }
        } else {
            let b = lane_of(self.held, self.rfill);
            if self.rfill == 3 {
                self.rfill = 0;
                self.held = 0;
            } else {
                self.rfill = self.rfill + 1;
            }
            Ok(b)
        }
    }

    /// Open one more scope on the read side.
    fn open_scope(&mut self)
        requires
            old(self).wf(),
            old(self).rst().depth < usize::MAX,
        ensures
            final(self).wf(),
            final(self).src() == old(self).src(),
            final(self).pos_i() == old(self).pos_i(),
            final(self).rst() == old(self).rst().opened(),
    {
        self.depth = self.depth + 1;
    }

    /// Close one scope on the read side; returning to depth zero discards
    /// the partially consumed word.
    fn close_scope(&mut self)
        requires
            old(self).wf(),
            old(self).rst().depth > 0,
        ensures
            final(self).wf(),
            final(self).src() == old(self).src(),
            final(self).pos_i() == old(self).pos_i(),
            final(self).rst() == old(self).rst().closed(),
    {
        self.depth = self.depth - 1;
        if self.depth == 0 {
            self.rfill = 0;
            self.held = 0;
        }
    }

    /// Read `n` raw bytes zero-padded to the next word boundary.
    #[verifier::loop_isolation(false)]
    fn read_padded(&mut self, n: u32) -> (r: Result<Vec<u8>, Error>)
        requires
            old(self).wf(),
        ensures
            final(self).wf(),
            final(self).src() == old(self).src(),
            final(self).rst().depth == old(self).rst().depth,
            ({
                let d = dec_padded(old(self).src(), old(self).pos_i(), old(self).rst(), n as nat);
                match r {
                    Ok(bs) => d == Ok::<(Seq<u8>, int, ReadState), Error>(
                        (bs@, final(self).pos_i(), final(self).rst()),
                    ),
                    Err(e) => d == Err::<(Seq<u8>, int, ReadState), Error>(e),
                }
            }),
    {
        let k: usize = (n / 4) as usize + if n % 4 != 0 {
            1
        } else {
            0
        };
        proof {
            vstd::arithmetic::div_mod::lemma_fundamental_div_mod(n as int, 4);
            vstd::arithmetic::div_mod::lemma_fundamental_div_mod((n + 3) as int, 4);
            if n % 4 == 0 {
                vstd::arithmetic::div_mod::lemma_fundamental_div_mod_converse(
                    (n + 3) as int,
                    4,
                    n as int / 4,
                    3,
                );
            } else {
                vstd::arithmetic::div_mod::lemma_fundamental_div_mod_converse(
                    (n + 3) as int,
                    4,
                    n as int / 4 + 1,
                    (n as int % 4) - 1,
                );
            }
            assert(k == ((n as int) + 3) / 4);
        }
        if k > self.words.len() - self.pos {
            return Err(Error::UnexpectedEnd);
        }
        let ghost target = Seq::new(
            n as nat,
            |j: int| byte_at(self.words@[self.pos as int + j / 4] as int, (j % 4) as nat) as u8,
        );
        let mut out: Vec<u8> = Vec::new();
        let mut j: usize = 0;
        let base = self.pos;
        while j < n as usize
            invariant
                0 <= j <= n,
                base == self.pos,
                base + k <= self.words@.len(),
                k == ((n as int) + 3) / 4,
                out@ == target.take(j as int),
                target == Seq::new(
                    n as nat,
                    |t: int| byte_at(self.words@[base + t / 4] as int, (t % 4) as nat) as u8,
                ),
                self.src() == old(self).src(),
                self.pos_i() == old(self).pos_i(),
                self.rst() == old(self).rst(),
                self.wf(),
            decreases n - j,
        {
            let wi = j / 4;
            proof {
                vstd::arithmetic::div_mod::lemma_fundamental_div_mod(j as int, 4);
                vstd::arithmetic::div_mod::lemma_mod_pos_bound(j as int, 4);
                vstd::arithmetic::div_mod::lemma_fundamental_div_mod((n as int) + 3, 4);
                vstd::arithmetic::div_mod::lemma_mod_pos_bound((n as int) + 3, 4);
                assert(4 * (j as int / 4) <= j);
                assert(4 * k >= n);
                assert(wi < k);
                assert(base + wi < self.words@.len());
            }
            let w = self.words[base + wi];
            let b = lane_of(w, (j % 4) as u8);
            out.push(b);
            proof {
                assert(target.take(j + 1) =~= target.take(j as int).push(target[j as int]));
            }
            j = j + 1;
        }
        self.pos = base + k;
        self.rfill = 0;
        self.held = 0;
        proof {
            assert(out@ =~= target);
        }
        Ok(out)
    }

    /// Decode one whole value of shape `sh`.
    #[verifier::loop_isolation(false)]
    #[verifier::rlimit(100)]
    pub fn decode_value(&mut self, sh: &Shape) -> (r: Result<Value, Error>)
        requires
            old(self).wf(),
            old(self).rst().depth + sheight(*sh) <= usize::MAX,
        ensures
            final(self).wf(),
            final(self).src() == old(self).src(),
            r is Ok ==> final(self).rst().depth == old(self).rst().depth,
            ({
                let d = dec(*sh, old(self).src(), old(self).pos_i(), old(self).rst());
                match r {
                    Ok(v) => d == Ok::<(SpecVal, int, ReadState), Error>(
                        (view_value(v), final(self).pos_i(), final(self).rst()),
                    ),
                    Err(e) => d == Err::<(SpecVal, int, ReadState), Error>(e),
                }
            }),
        decreases ssize(*sh), 0nat,
    {
        match sh {
            Shape::Opt(inner) => match self.read_word() {
                Ok(t) => if t == 0 {
                    Ok(Value::Opt(None))
                } else if t == 1 {
                    match self.decode_value(&**inner) {
                        Ok(v) => Ok(Value::Opt(Some(Box::new(v)))),
                        Err(e) => Err(e),
                    }
                } else {
                    Err(Error::BadOption)
                },
                Err(e) => Err(e),
            },
            Shape::List(esh) => {
                self.open_scope();
                let n = match self.read_word() {
                    Ok(n) => n,
                    Err(e) => {
                        return Err(e);
                    },
                };
                let out = match self.decode_list_elems(esh, n) {
                    Ok(o) => o,
                    Err(e) => {
                        return Err(e);
                    },
                };
                self.close_scope();
                Ok(Value::List(out))
            },
            Shape::Tuple(shs) => {
                self.open_scope();
                let out = match self.decode_fields(shs) {
                    Ok(out) => out,
                    Err(e) => {
                        return Err(e);
                    },
                };
                self.close_scope();
                Ok(Value::Tuple(out))
            },
            Shape::Dict(ksh, vsh) => {
                self.open_scope();
                let n = match self.read_word() {
                    Ok(n) => n,
                    Err(e) => {
                        return Err(e);
                    },
                };
                let out = match self.decode_pairs_elems(ksh, vsh, n) {
                    Ok(o) => o,
                    Err(e) => {
                        return Err(e);
                    },
                };
                self.close_scope();
                Ok(Value::Dict(out))
            },
            Shape::Enum(vars) => {
                let idx = match self.read_word() {
                    Ok(w) => w,
                    Err(e) => {
                        return Err(e);
                    },
                };
                if (idx as usize) < vars.len() {
                    let var = &vars[idx as usize];
                    proof {
                        lemma_sheight_vars_at(vars@, idx as int);
                        lemma_ssize_vars_at(vars@, idx as int);
                    }
                    if var.scoped {
                        self.open_scope();
                        let out = match self.decode_fields(&var.fields) {
                            Ok(out) => out,
                            Err(e) => {
                                return Err(e);
                            },
                        };
                        self.close_scope();
                        Ok(Value::Variant(idx, true, out))
                    } else {
                        let out = match self.decode_fields(&var.fields) {
                            Ok(out) => out,
                            Err(e) => {
                                return Err(e);
                            },
                        };
                        Ok(Value::Variant(idx, false, out))
                    }
                } else {
                    Err(Error::BadVariant)
                }
            },
            _ => self.decode_prim(sh),
        }
    }

    /// Decode one primitive (non-composite) value of shape `sh`.
    #[verifier::rlimit(100)]
    #[verifier::spinoff_prover]
    fn decode_prim(&mut self, sh: &Shape) -> (r: Result<Value, Error>)
        requires
            old(self).wf(),
            !(*sh is Opt),
            !(*sh is List),
            !(*sh is Tuple),
            !(*sh is Dict),
            !(*sh is Enum),
        ensures
            final(self).wf(),
            final(self).src() == old(self).src(),
            r is Ok ==> final(self).rst().depth == old(self).rst().depth,
            ({
                let d = dec(*sh, old(self).src(), old(self).pos_i(), old(self).rst());
                match r {
                    Ok(v) => d == Ok::<(SpecVal, int, ReadState), Error>(
                        (view_value(v), final(self).pos_i(), final(self).rst()),
                    ),
                    Err(e) => d == Err::<(SpecVal, int, ReadState), Error>(e),
                }
            }),
    {
        match sh {
            Shape::Bool => match self.read_byte() {
                Ok(b) => if b == 0 {
                    Ok(Value::Bool(false))
                } else if b == 1 {
                    Ok(Value::Bool(true))
                } else {
                    Err(Error::BadBool)
                },
                Err(e) => Err(e),
            },
            Shape::U8 => match self.read_byte() {
                Ok(b) => Ok(Value::U8(b)),
                Err(e) => Err(e),
            },
            Shape::U16 => match self.read_word() {
                Ok(w) => Ok(Value::U16(w as u16)),
                Err(e) => Err(e),
            },
            Shape::U32 => match self.read_word() {
                Ok(w) => Ok(Value::U32(w)),
                Err(e) => Err(e),
            },
            Shape::I8 => match self.read_word() {
                Ok(w) => Ok(Value::I8(w as i8)),
                Err(e) => Err(e),
            },
            Shape::I16 => match self.read_word() {
                Ok(w) => Ok(Value::I16(w as i16)),
                Err(e) => Err(e),
            },
            Shape::I32 => match self.read_word() {
                Ok(w) => Ok(Value::I32(w as i32)),
                Err(e) => Err(e),
            },
            Shape::F32 => match self.read_word() {
                Ok(w) => Ok(Value::F32Bits(w)),
                Err(e) => Err(e),
            },
            Shape::Char => match self.read_word() {
                Ok(w) => match char::from_u32(w) {
                    Some(c) => {
                        proof {
                            vstd::utf8::char_u32_cast(c, w);
                        }
                        Ok(Value::Char(c))
                    },
                    None => Err(Error::BadChar),
                },
                Err(e) => Err(e),
            },
            Shape::Unit => Ok(Value::Unit),
            _ => self.decode_prim_wide(sh),
        }
    }

    /// Decode one multi-word primitive or byte-buffer value of shape `sh`.
    #[verifier::rlimit(100)]
    #[verifier::spinoff_prover]
    fn decode_prim_wide(&mut self, sh: &Shape) -> (r: Result<Value, Error>)
        requires
            old(self).wf(),
            *sh is U64 || *sh is U128 || *sh is I64 || *sh is I128 || *sh is F64 || *sh is Text
                || *sh is Bytes,
        ensures
            final(self).wf(),
            final(self).src() == old(self).src(),
            r is Ok ==> final(self).rst().depth == old(self).rst().depth,
            ({
                let d = dec(*sh, old(self).src(), old(self).pos_i(), old(self).rst());
                match r {
                    Ok(v) => d == Ok::<(SpecVal, int, ReadState), Error>(
                        (view_value(v), final(self).pos_i(), final(self).rst()),
                    ),
                    Err(e) => d == Err::<(SpecVal, int, ReadState), Error>(e),
                }
            }),
    {
        match sh {
            Shape::U64 => match self.read_word() {
                Ok(lo) => match self.read_word() {
                    Ok(hi) => Ok(Value::U64(lo as u64 + (hi as u64) * 0x1_0000_0000)),
                    Err(e) => Err(e),
                },
                Err(e) => Err(e),
            },
            Shape::U128 => match self.read_word() {
                Ok(w0) => match self.read_word() {
                    Ok(w1) => match self.read_word() {
                        Ok(w2) => match self.read_word() {
                            Ok(w3) => Ok(Value::U128(
                                w0 as u128 + (w1 as u128) * 0x1_0000_0000 + (w2 as u128)
                                    * 0x1_0000_0000_0000_0000 + (w3 as u128)
                                    * 0x1_0000_0000_0000_0000_0000_0000,
                            )),
                            Err(e) => Err(e),
                        },
                        Err(e) => Err(e),
                    },
                    Err(e) => Err(e),
                },
                Err(e) => Err(e),
            },
            Shape::I64 => match self.read_word() {
                Ok(lo) => match self.read_word() {
                    Ok(hi) => Ok(Value::I64((lo as u64 + (hi as u64) * 0x1_0000_0000) as i64)),
                    Err(e) => Err(e),
                },
                Err(e) => Err(e),
            },
            Shape::I128 => match self.read_word() {
                Ok(w0) => match self.read_word() {
                    Ok(w1) => match self.read_word() {
                        Ok(w2) => match self.read_word() {
                            Ok(w3) => Ok(Value::I128(
                                (w0 as u128 + (w1 as u128) * 0x1_0000_0000 + (w2 as u128)
                                    * 0x1_0000_0000_0000_0000 + (w3 as u128)
                                    * 0x1_0000_0000_0000_0000_0000_0000) as i128,
                            )),
                            Err(e) => Err(e),
                        },
                        Err(e) => Err(e),
                    },
                    Err(e) => Err(e),
                },
                Err(e) => Err(e),
            },
            Shape::F64 => match self.read_word() {
                Ok(lo) => match self.read_word() {
                    Ok(hi) => Ok(Value::F64Bits(lo as u64 + (hi as u64) * 0x1_0000_0000)),
                    Err(e) => Err(e),
                },
                Err(e) => Err(e),
            },
            Shape::Text => match self.read_word() {
                Ok(n) => match self.read_padded(n) {
                    Ok(bs) => Ok(Value::Text(bs)),
                    Err(e) => Err(e),
                },
                Err(e) => Err(e),
            },
            Shape::Bytes => match self.read_word() {
                Ok(n) => match self.read_padded(n) {
                    Ok(bs) => Ok(Value::Bytes(bs)),
                    Err(e) => Err(e),
                },
                Err(e) => Err(e),
            },
            _ => {
                proof {
                    assert(false);
                }
                Err(Error::UnexpectedEnd)
            },
        }
    }


    /// Decode `n` values of one shape, in order.
    #[verifier::loop_isolation(false)]
    fn decode_list_elems(&mut self, esh: &Shape, n: u32) -> (r: Result<Vec<Value>, Error>)
        requires
            old(self).wf(),
            old(self).rst().depth + sheight(*esh) <= usize::MAX,
        ensures
            final(self).wf(),
            final(self).src() == old(self).src(),
            r is Ok ==> final(self).rst().depth == old(self).rst().depth,
            ({
                let d = dec_list(*esh, n as nat, old(self).src(), old(self).pos_i(), old(self).rst());
                match r {
                    Ok(vs) => d == Ok::<(Seq<SpecVal>, int, ReadState), Error>(
                        (view_list(vs@), final(self).pos_i(), final(self).rst()),
                    ),
                    Err(e) => d == Err::<(Seq<SpecVal>, int, ReadState), Error>(e),
                }
            }),
        decreases ssize(*esh), 1nat,
    {
        let ghost st1 = self.rst();
        let ghost j0 = self.pos_i();
        let mut out: Vec<Value> = Vec::new();
        let mut cnt: usize = 0;
        let nn = n as usize;
        proof {
            assert(view_list(out@) =~= Seq::<SpecVal>::empty());
            assert forall|xs: Seq<SpecVal>| #[trigger] (Seq::<SpecVal>::empty() + xs) =~= xs by {}
        }
        while cnt < nn
            invariant
                self.wf(),
                self.src() == old(self).src(),
                cnt <= nn,
                self.rst().depth == st1.depth,
                ({
                    let whole = dec_list(*esh, n as nat, self.src(), j0, st1);
                    let rest = dec_list(
                        *esh,
                        (nn - cnt) as nat,
                        self.src(),
                        self.pos_i(),
                        self.rst(),
                    );
                    match rest {
                        Ok((xs, k2, st2)) => whole == Ok::<(Seq<SpecVal>, int, ReadState), Error>(
                            (view_list(out@) + xs, k2, st2),
                        ),
                        Err(e) => whole == Err::<(Seq<SpecVal>, int, ReadState), Error>(e),
                    }
                }),
            decreases nn - cnt,
        {
            let x = match self.decode_value(esh) {
                Ok(x) => x,
                Err(e) => {
                    return Err(e);
                },
            };
            let ghost prev = out@;
            out.push(x);
            proof {
                lemma_view_list_push(prev, x);
                assert(view_list(out@) =~= view_list(prev).push(view_value(x)));
                assert forall|xs: Seq<SpecVal>|
                    #[trigger] (view_list(prev) + (seq![view_value(x)] + xs)) =~= view_list(out@)
                        + xs by {}
            }
            cnt = cnt + 1;
        }
        proof {
            assert(view_list(out@) + Seq::<SpecVal>::empty() =~= view_list(out@));
        }
        Ok(out)
    }

    /// Decode `n` map entries, each key then value.
    #[verifier::loop_isolation(false)]
    fn decode_pairs_elems(&mut self, ksh: &Shape, vsh: &Shape, n: u32) -> (r: Result<
        Vec<(Value, Value)>,
        Error,
    >)
        requires
            old(self).wf(),
            old(self).rst().depth + sheight(*ksh) <= usize::MAX,
            old(self).rst().depth + sheight(*vsh) <= usize::MAX,
        ensures
            final(self).wf(),
            final(self).src() == old(self).src(),
            r is Ok ==> final(self).rst().depth == old(self).rst().depth,
            ({
                let d = dec_pairs(
                    *ksh,
                    *vsh,
                    n as nat,
                    old(self).src(),
                    old(self).pos_i(),
                    old(self).rst(),
                );
                match r {
                    Ok(vs) => d == Ok::<(Seq<(SpecVal, SpecVal)>, int, ReadState), Error>(
                        (view_pairs(vs@), final(self).pos_i(), final(self).rst()),
                    ),
                    Err(e) => d == Err::<(Seq<(SpecVal, SpecVal)>, int, ReadState), Error>(e),
                }
            }),
        decreases ssize(*ksh) + ssize(*vsh), 1nat,
    {
        let ghost st1 = self.rst();
        let ghost j0 = self.pos_i();
        let mut out: Vec<(Value, Value)> = Vec::new();
        let mut cnt: usize = 0;
        let nn = n as usize;
        proof {
            assert(view_pairs(out@) =~= Seq::<(SpecVal, SpecVal)>::empty());
            assert forall|xs: Seq<(SpecVal, SpecVal)>| #[trigger] (Seq::<
                (SpecVal, SpecVal),
            >::empty() + xs) =~= xs by {}
        }
        while cnt < nn
            invariant
                self.wf(),
                self.src() == old(self).src(),
                cnt <= nn,
                self.rst().depth == st1.depth,
                ({
                    let whole = dec_pairs(*ksh, *vsh, n as nat, self.src(), j0, st1);
                    let rest = dec_pairs(
                        *ksh,
                        *vsh,
                        (nn - cnt) as nat,
                        self.src(),
                        self.pos_i(),
                        self.rst(),
                    );
                    match rest {
                        Ok((xs, k2, st2)) => whole == Ok::<
                            (Seq<(SpecVal, SpecVal)>, int, ReadState),
                            Error,
                        >((view_pairs(out@) + xs, k2, st2)),
                        Err(e) => whole == Err::<(Seq<(SpecVal, SpecVal)>, int, ReadState), Error>(
                            e,
                        ),
                    }
                }),
            decreases nn - cnt,
        {
            proof {
                lemma_ssize_pos(*ksh);
                lemma_ssize_pos(*vsh);
            }
            let xk = match self.decode_value(ksh) {
                Ok(x) => x,
                Err(e) => {
                    return Err(e);
                },
            };
            let xv = match self.decode_value(vsh) {
                Ok(x) => x,
                Err(e) => {
                    return Err(e);
                },
            };
            let ghost prev = out@;
            out.push((xk, xv));
            proof {
                lemma_view_pairs_push(prev, (xk, xv));
                assert(view_pairs(out@) =~= view_pairs(prev).push(
                    (view_value(xk), view_value(xv)),
                ));
                assert forall|xs: Seq<(SpecVal, SpecVal)>|
                    #[trigger] (view_pairs(prev) + (seq![(view_value(xk), view_value(xv))] + xs))
                        =~= view_pairs(out@) + xs by {}
            }
            cnt = cnt + 1;
        }
        proof {
            assert(view_pairs(out@) + Seq::<(SpecVal, SpecVal)>::empty() =~= view_pairs(out@));
        }
        Ok(out)
    }

    /// Decode a run of fields, each of its own shape, in order.
    #[verifier::loop_isolation(false)]
    pub fn decode_fields(&mut self, shs: &Vec<Shape>) -> (r: Result<Vec<Value>, Error>)
        requires
            old(self).wf(),
            old(self).rst().depth + sheight_fields(shs@) <= usize::MAX,
        ensures
            final(self).wf(),
            final(self).src() == old(self).src(),
            r is Ok ==> final(self).rst().depth == old(self).rst().depth,
            ({
                let d = dec_fields(shs@, old(self).src(), old(self).pos_i(), old(self).rst());
                match r {
                    Ok(vs) => d == Ok::<(Seq<SpecVal>, int, ReadState), Error>(
                        (view_list(vs@), final(self).pos_i(), final(self).rst()),
                    ),
                    Err(e) => d == Err::<(Seq<SpecVal>, int, ReadState), Error>(e),
                }
            }),
        decreases ssize_fields(shs@), shs@.len(),
    {
        let n = shs.len();
        let ghost st0 = self.rst();
        let ghost j0 = self.pos_i();
        let mut out: Vec<Value> = Vec::new();
        let mut cnt: usize = 0;
        proof {
            assert(shs@.skip(0) =~= shs@);
            assert(view_list(out@) =~= Seq::<SpecVal>::empty());
            assert forall|xs: Seq<SpecVal>| #[trigger] (Seq::<SpecVal>::empty() + xs) =~= xs by {}
        }
        while cnt < n
            invariant
                self.wf(),
                self.src() == old(self).src(),
                self.rst().depth == st0.depth,
                cnt <= n,
                n == shs@.len(),
                ({
                    let whole = dec_fields(shs@, self.src(), j0, st0);
                    let rest = dec_fields(
                        shs@.skip(cnt as int),
                        self.src(),
                        self.pos_i(),
                        self.rst(),
                    );
                    match rest {
                        Ok((xs, k2, st2)) => whole == Ok::<(Seq<SpecVal>, int, ReadState), Error>(
                            (view_list(out@) + xs, k2, st2),
                        ),
                        Err(e) => whole == Err::<(Seq<SpecVal>, int, ReadState), Error>(e),
                    }
                }),
            decreases n - cnt,
        {
            proof {
                lemma_sheight_fields_at(shs@, cnt as int);
                lemma_ssize_fields_at(shs@, cnt as int);
                assert(shs@.skip(cnt as int)[0] == shs@[cnt as int]);
                assert(shs@.skip(cnt as int).drop_first() =~= shs@.skip(cnt + 1));
            }
            let x = match self.decode_value(&shs[cnt]) {
                Ok(x) => x,
                Err(e) => {
                    return Err(e);
                },
            };
            let ghost prev = out@;
            out.push(x);
            proof {
                lemma_view_list_push(prev, x);
                assert(view_list(out@) =~= view_list(prev).push(view_value(x)));
                assert forall|xs: Seq<SpecVal>|
                    #[trigger] (view_list(prev) + (seq![view_value(x)] + xs)) =~= view_list(out@)
                        + xs by {}
            }
            cnt = cnt + 1;
        }
        proof {
            assert(shs@.skip(n as int) =~= Seq::<Shape>::empty());
            assert(view_list(out@) + Seq::<SpecVal>::empty() =~= view_list(out@));
        }
        Ok(out)
    }
}

/// Decode one value of shape `shape` from the front of a word slice;
/// words past the value's encoding are ignored.
pub fn from_slice(words: &[u32], shape: &Shape) -> (r: Result<Value, Error>)
    requires
        sheight(*shape) <= usize::MAX,
    ensures
        ({
            let d = dec(*shape, words@, 0, ReadState::init());
            match r {
                Ok(v) => d matches Ok(t) && t.0 == view_value(v),
                Err(e) => d == Err::<(SpecVal, int, ReadState), Error>(e),
            }
        }),
{
    let mut de = Deserializer::new(words);
    de.decode_value(shape)
}

} // verus!
