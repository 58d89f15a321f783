//! Little-endian packing of bytes into 32-bit words.
//!
//! This is the arithmetic model of the wire format that the encoder and the
//! decoder share: a byte sequence is valued with byte `i` at weight `256^i`,
//! and long byte runs are cut into words of four bytes, the last word
//! zero-padded.

use vstd::prelude::*;
use vstd::arithmetic::div_mod::{
    lemma_div_denominator, lemma_fundamental_div_mod, lemma_fundamental_div_mod_converse,
};

verus! {

/// 256 raised to `n`: the weight of byte lane `n` inside a word.
pub open spec fn pow256(n: nat) -> int
    decreases n,
{
    if n == 0 {
        1
    } else {
        256 * pow256((n - 1) as nat)
    }
}

pub proof fn lemma_pow256_pos(n: nat)
    ensures
        pow256(n) >= 1,
    decreases n,
{
    if n > 0 {
        lemma_pow256_pos((n - 1) as nat);
    }
}

pub proof fn lemma_pow256_increases(m: nat, n: nat)
    requires
        m <= n,
    ensures
        pow256(m) <= pow256(n),
    decreases n,
{
    if m < n {
        lemma_pow256_increases(m, (n - 1) as nat);
        lemma_pow256_pos((n - 1) as nat);
    }
}

/// The little-endian value of a byte sequence: byte `i` has weight `256^i`.
pub open spec fn le_val(bs: Seq<u8>) -> int
    decreases bs.len(),
{
    if bs.len() == 0 {
        0
    } else {
        bs[0] + 256 * le_val(bs.drop_first())
    }
}

/// The word that a run of at most four bytes packs into, unset lanes zero.
pub open spec fn word_of(bs: Seq<u8>) -> u32 {
    le_val(bs) as u32
}

/// Byte lane `i` of the word value `w`.
pub open spec fn byte_at(w: int, i: nat) -> int {
    (w / pow256(i)) % 256
}

pub proof fn lemma_le_val_bound(bs: Seq<u8>)
    ensures
        0 <= le_val(bs) < pow256(bs.len()),
    decreases bs.len(),
{
    if bs.len() > 0 {
        lemma_le_val_bound(bs.drop_first());
    }
}

/// A byte run of at most four bytes fits one word exactly.
pub proof fn lemma_word_of_small(bs: Seq<u8>)
    requires
        bs.len() <= 4,
    ensures
        word_of(bs) == le_val(bs),
{
    lemma_le_val_bound(bs);
    lemma_pow256_increases(bs.len(), 4);
    assert(pow256(0) == 1);
    assert(pow256(1) == 256);
    assert(pow256(2) == 0x10000);
    assert(pow256(3) == 0x1000000);
    assert(pow256(4) == 0x100000000);
}

/// Appending a byte adds it at the next free lane.
pub proof fn lemma_le_val_push(bs: Seq<u8>, b: u8)
    ensures
        le_val(bs.push(b)) == le_val(bs) + b * pow256(bs.len()),
    decreases bs.len(),
{
    if bs.len() == 0 {
        assert(bs.push(b).drop_first() =~= Seq::<u8>::empty());
        assert(le_val(Seq::<u8>::empty()) == 0);
    } else {
        assert(bs.push(b).drop_first() =~= bs.drop_first().push(b));
        lemma_le_val_push(bs.drop_first(), b);
        assert(256 * ((b as int) * pow256((bs.len() - 1) as nat)) == (b as int) * (256
            * pow256((bs.len() - 1) as nat))) by (nonlinear_arith);
    }
}

/// Each packed byte can be read back out of its lane.
pub proof fn lemma_le_val_byte_at(bs: Seq<u8>, i: nat)
    requires
        i < bs.len(),
    ensures
        byte_at(le_val(bs), i) == bs[i as int],
    decreases i,
{
    let w = le_val(bs);
    let tail = bs.drop_first();
    lemma_le_val_bound(tail);
    lemma_fundamental_div_mod_converse(w, 256, le_val(tail), bs[0] as int);
    if i == 0 {
        lemma_fundamental_div_mod_converse(w, 1, w, 0);
    } else {
        lemma_pow256_pos((i - 1) as nat);
        lemma_le_val_bound(bs);
        lemma_div_denominator(w, 256, pow256((i - 1) as nat));
        lemma_le_val_byte_at(tail, (i - 1) as nat);
    }
}

/// Lanes beyond the run hold zero.
pub proof fn lemma_le_val_byte_at_zero(bs: Seq<u8>, i: nat)
    requires
        bs.len() <= i,
    ensures
        byte_at(le_val(bs), i) == 0,
{
    lemma_le_val_bound(bs);
    lemma_pow256_increases(bs.len(), i);
    lemma_pow256_pos(i);
    lemma_fundamental_div_mod_converse(le_val(bs), pow256(i), 0, le_val(bs));
}

/// Byte `i` of a run, zero beyond its end: the value of lane `i` of the
/// word the run packs into.
pub open spec fn lane(bs: Seq<u8>, i: int) -> u8 {
    if 0 <= i < bs.len() {
        bs[i]
    } else {
        0
    }
}

/// The packed word of a short run, written out lane by lane.
pub proof fn lemma_le_val_up_to_4(bs: Seq<u8>)
    requires
        bs.len() <= 4,
    ensures
        le_val(bs) == lane(bs, 0) + 0x100 * (lane(bs, 1) as int) + 0x1_0000 * (lane(bs, 2) as int)
            + 0x100_0000 * (lane(bs, 3) as int),
{
    reveal_with_fuel(le_val, 5);
    if bs.len() > 0 {
        let d1 = bs.drop_first();
        assert(forall|k: int| 0 <= k < d1.len() ==> d1[k] == bs[k + 1]);
        if d1.len() > 0 {
            let d2 = d1.drop_first();
            assert(forall|k: int| 0 <= k < d2.len() ==> d2[k] == d1[k + 1]);
            if d2.len() > 0 {
                let d3 = d2.drop_first();
                assert(forall|k: int| 0 <= k < d3.len() ==> d3[k] == d2[k + 1]);
                if d3.len() > 0 {
                    assert(d3.drop_first().len() == 0);
                }
            }
        }
    }
}

/// A byte run cut into words of four, the last word zero-padded.
pub open spec fn words_of_bytes(bs: Seq<u8>) -> Seq<u32>
    decreases bs.len(),
{
    if bs.len() == 0 {
        Seq::<u32>::empty()
    } else if bs.len() <= 4 {
        seq![word_of(bs)]
    } else {
        seq![word_of(bs.take(4))] + words_of_bytes(bs.skip(4))
    }
}

pub proof fn lemma_words_of_bytes_len(bs: Seq<u8>)
    ensures
        words_of_bytes(bs).len() == (bs.len() + 3) / 4,
    decreases bs.len(),
{
    if bs.len() > 4 {
        lemma_words_of_bytes_len(bs.skip(4));
        lemma_fundamental_div_mod((bs.len() + 3) as int, 4);
        lemma_fundamental_div_mod_converse(
            (bs.len() + 3) as int,
            4,
            1 + (bs.len() - 4 + 3) / 4,
            (bs.len() - 4 + 3) % 4,
        );
    }
}

/// Every byte of the run can be read back from its word and lane.
pub proof fn lemma_words_of_bytes_at(bs: Seq<u8>, j: nat)
    requires
        j < bs.len(),
    ensures
        j / 4 < words_of_bytes(bs).len(),
        byte_at(words_of_bytes(bs)[j as int / 4] as int, j % 4) == bs[j as int],
    decreases bs.len(),
{
    lemma_words_of_bytes_len(bs);
    if bs.len() <= 4 {
        lemma_fundamental_div_mod_converse(j as int, 4, 0, j as int);
        lemma_word_of_small(bs);
        lemma_le_val_byte_at(bs, j);
    } else if j < 4 {
        lemma_fundamental_div_mod_converse(j as int, 4, 0, j as int);
        lemma_word_of_small(bs.take(4));
        lemma_le_val_byte_at(bs.take(4), j);
    } else {
        lemma_words_of_bytes_at(bs.skip(4), (j - 4) as nat);
        let q = (j - 4) as int / 4;
        let r = (j - 4) as int % 4;
        lemma_fundamental_div_mod((j - 4) as int, 4);
        lemma_fundamental_div_mod_converse(j as int, 4, q + 1, r);
        assert(words_of_bytes(bs)[j as int / 4] == words_of_bytes(bs.skip(4))[q]);
    }
}

} // verus!
