//! The byte-packing state machine.
//!
//! While at least one composite scope is open, consecutive single-byte
//! values are accumulated into the four byte lanes of one word,
//! least-significant lane first, and the word is written out when its
//! fourth lane fills, when a directly-word-encoded value forces a flush,
//! or when the nesting depth returns to zero with bytes still pending.

use vstd::prelude::*;
use crate::words::{
    le_val, word_of, pow256, lemma_le_val_bound, lemma_le_val_push, lemma_pow256_increases,
    lemma_word_of_small,
};

verus! {

/// The packing state as the contracts speak of it: the nesting depth and
/// the bytes pending in the partial word, in write order.
pub ghost struct PackState {
    pub depth: nat,
    pub pend: Seq<u8>,
}

impl PackState {
    /// The state a fresh encoder starts in.
    pub open spec fn init() -> PackState {
        PackState { depth: 0, pend: Seq::empty() }
    }

    /// At most three bytes are ever pending, and none outside a scope.
    pub open spec fn wf(self) -> bool {
        &&& self.pend.len() < 4
        &&& (self.depth == 0 ==> self.pend.len() == 0)
    }

    /// The words a forced flush emits: the pending bytes as one word,
    /// unset high lanes zero, or nothing when no byte is pending.
    pub open spec fn flush_words(self) -> Seq<u32> {
        if self.pend.len() > 0 {
            seq![word_of(self.pend)]
        } else {
            Seq::empty()
        }
    }

    /// The state after a forced flush.
    pub open spec fn flushed(self) -> PackState {
        PackState { depth: self.depth, pend: Seq::empty() }
    }

    /// The state after opening one more scope.
    pub open spec fn opened(self) -> PackState {
        PackState { depth: self.depth + 1, pend: self.pend }
    }

    /// The words emitted on closing a scope: pending bytes flush only when
    /// the depth returns to zero.
    pub open spec fn close_words(self) -> Seq<u32>
        recommends
            self.depth > 0,
    {
        if self.depth == 1 && self.pend.len() > 0 {
            seq![word_of(self.pend)]
        } else {
            Seq::empty()
        }
    }

    /// The state after closing a scope.
    pub open spec fn closed(self) -> PackState
        recommends
            self.depth > 0,
    {
        if self.depth == 1 {
            PackState { depth: 0, pend: Seq::empty() }
        } else {
            PackState { depth: (self.depth - 1) as nat, pend: self.pend }
        }
    }

    /// The words emitted when byte `b` is routed to the state machine: a
    /// standalone word outside any scope, the filled word when `b` lands
    /// in the fourth lane, nothing while the word is still filling.
    pub open spec fn byte_words(self, b: u8) -> Seq<u32>
        recommends
            self.wf(),
    {
        if self.depth == 0 {
            seq![b as u32]
        } else if self.pend.len() < 3 {
            Seq::empty()
        } else {
            seq![word_of(self.pend.push(b))]
        }
    }

    /// The state after byte `b` is routed to the state machine.
    pub open spec fn byte_pushed(self, b: u8) -> PackState
        recommends
            self.wf(),
    {
        if self.depth == 0 {
            self
        } else if self.pend.len() < 3 {
            PackState { depth: self.depth, pend: self.pend.push(b) }
        } else {
            PackState { depth: self.depth, pend: Seq::empty() }
        }
    }
}

/// A well-formed handler is in a well-formed packing state.
pub proof fn lemma_handler_wf_st(h: ByteHandler)
    requires
        h.wf(),
    ensures
        h.st().wf(),
{
}

/// The executable byte-packing state machine: a depth counter and one
/// partially filled word, with the pending bytes carried alongside as the
/// ghost view the contracts speak of.
pub struct ByteHandler {
    status: u8,
    depth: usize,
    byte_holder: u32,
    pend: Ghost<Seq<u8>>,
}

impl ByteHandler {
    /// The abstract packing state this handler is in.
    pub closed spec fn st(self) -> PackState {
        PackState { depth: self.depth as nat, pend: self.pend@ }
    }

    /// The accumulator mirrors the pending bytes: `status` counts them and
    /// `byte_holder` holds their packed value while any are pending.
    pub closed spec fn wf(self) -> bool {
        &&& self.status as nat == self.pend@.len()
        &&& self.st().wf()
        &&& (self.status > 0 ==> self.byte_holder == le_val(self.pend@))
    }

    pub fn new() -> (r: ByteHandler)
        ensures
            r.wf(),
            r.st() == PackState::init(),
    {
        ByteHandler { status: 0, depth: 0, byte_holder: 0, pend: Ghost(Seq::empty()) }
    }

    /// Open one more composite scope; never writes.
    pub fn increase_depth(&mut self) -> (r: Result<(), crate::err::Error>)
        requires
            old(self).wf(),
            old(self).st().depth < usize::MAX,
        ensures
            final(self).wf(),
            r is Ok,
            final(self).st() == old(self).st().opened(),
    {
        self.depth = self.depth + 1;
        Ok(())
    }

    /// Close one composite scope; flushes the pending bytes when the depth
    /// returns to zero.
    pub fn decrease_depth(&mut self, stream: &mut Vec<u32>) -> (r: Result<(), crate::err::Error>)
        requires
            old(self).wf(),
            old(self).st().depth > 0,
        ensures
            final(self).wf(),
            r is Ok,
            final(stream)@ == old(stream)@ + old(self).st().close_words(),
            final(self).st() == old(self).st().closed(),
    {
        self.depth = self.depth - 1;
        if self.depth == 0 && self.status != 0 {
            proof {
                lemma_word_of_small(self.pend@);
            }
            stream.push(self.byte_holder);
            self.status = 0;
            self.pend = Ghost(Seq::empty());
        }
        proof {
            assert(stream@ =~= old(stream)@ + old(self).st().close_words());
            if self.status == 0 {
                assert(self.pend@ =~= Seq::<u8>::empty());
            }
        }
        Ok(())
    }

    /// Force a flush: write the partial word, unset high lanes zero, so
    /// that a directly-word-encoded value can follow.
    pub fn reset(&mut self, stream: &mut Vec<u32>) -> (r: Result<(), crate::err::Error>)
        requires
            old(self).wf(),
        ensures
            final(self).wf(),
            r is Ok,
            final(stream)@ == old(stream)@ + old(self).st().flush_words(),
            final(self).st() == old(self).st().flushed(),
    {
        if self.status != 0 {
            proof {
                lemma_word_of_small(self.pend@);
            }
            stream.push(self.byte_holder);
        }
        self.status = 0;
        self.pend = Ghost(Seq::empty());
        proof {
            assert(stream@ =~= old(stream)@ + old(self).st().flush_words());
        }
        Ok(())
    }

    /// Route one byte value through the state machine: written widened to
    /// a full word outside any scope, packed into the next free lane
    /// otherwise.
    pub fn handle(&mut self, stream: &mut Vec<u32>, v: u8) -> (r: Result<(), crate::err::Error>)
        requires
            old(self).wf(),
        ensures
            final(self).wf(),
            r is Ok,
            final(stream)@ == old(stream)@ + old(self).st().byte_words(v),
            final(self).st() == old(self).st().byte_pushed(v),
    {
        if self.depth == 0 {
            stream.push(v as u32);
        } else {
            if self.status == 0 {
                self.byte_holder = v as u32;
                self.status = 1;
                self.pend = Ghost(Seq::empty().push(v));
                proof {
                    assert(Seq::<u8>::empty().push(v).drop_first() =~= Seq::<u8>::empty());
                    assert(le_val(Seq::<u8>::empty()) == 0);
                    assert(self.pend@ =~= old(self).pend@.push(v));
                }
            } else {
                let mult: u32 = if self.status == 1 {
                    0x100
                } else if self.status == 2 {
                    0x10000
                } else {
                    0x1000000
                };
                proof {
                    let p = self.pend@;
                    assert(pow256(0) == 1);
                    assert(pow256(1) == 256);
                    assert(pow256(2) == 0x10000);
                    assert(pow256(3) == 0x1000000);
                    assert(pow256(4) == 0x100000000);
                    assert(mult as int == pow256(p.len()));
                    lemma_le_val_bound(p);
                    lemma_le_val_push(p, v);
                    lemma_le_val_bound(p.push(v));
                    lemma_pow256_increases(p.len() + 1, 4);
                    assert(le_val(p.push(v)) == self.byte_holder + (v as u32) * mult);
                }
                self.byte_holder = self.byte_holder + (v as u32) * mult;
                self.status = (self.status + 1) % 4;
                self.pend = Ghost(self.pend@.push(v));
                if self.status == 0 {
                    proof {
                        lemma_word_of_small(self.pend@);
                    }
                    stream.push(self.byte_holder);
                    self.pend = Ghost(Seq::empty());
                }
            }
        }
        proof {
            assert(stream@ =~= old(stream)@ + old(self).st().byte_words(v));
        }
        Ok(())
    }
}

} // verus!
