//! Keys, quadrant values and nodes of the quadtree, and the content hash that
//! names a value.

use metrohash::MetroHash128;
use std::hash::Hasher;
use vstd::prelude::*;

verus! {

/// The key that marks an empty slot of the node table and a forward key that
/// was not computed yet.
pub const NULL_KEY: u128 = 0xcccc_cccc_cccc_cccc_cccc_cccc_cccc_cccc;

/// The four quadrants of a square: top left, top right, bottom left and
/// bottom right.  Each is a raw 8x8 block or the key of a node.
#[derive(Copy, Clone, PartialEq, Eq, Structural, Debug)]
pub struct QuadTreeValue {
    pub lt: u128,
    pub rt: u128,
    pub lb: u128,
    pub rb: u128,
}

/// A stored node: its quadrants, the key of its centre after as many
/// generations as a node of its depth can be advanced by at once (or
/// `NULL_KEY`), and the number of its live cells.
#[derive(Copy, Clone, PartialEq, Eq, Structural, Debug)]
pub struct QuadTreeNode {
    pub v: QuadTreeValue,
    pub forward_key: u128,
    pub set_count: u64,
}

/// Whether a key is a raw block: its upper 64 bits are zero.
pub open spec fn is_raw_key(x: u128) -> bool {
    x <= u64::MAX
}

/// Whether `x` is a raw 8x8 block rather than the key of a node.
pub fn node_is_raw(x: u128) -> (r: bool)
    ensures
        r == is_raw_key(x),
{
    assert((x >> 64 == 0) == (x <= 0xffff_ffff_ffff_ffffu128)) by (bit_vector);
    (x >> 64) == 0
}

/// The lower 64 bits of a key.
pub open spec fn low_word(k: u128) -> u64 {
    (k & 0xffff_ffff_ffff_ffff) as u64
}

/// The upper 64 bits of a key.
pub open spec fn high_word(k: u128) -> u64 {
    (k >> 64) as u64
}

/// The eight words that are hashed for a value: its four quadrants in
/// order, of each the lower word first.
pub open spec fn value_words(v: QuadTreeValue) -> Seq<u64> {
    seq![
        low_word(v.lt),
        high_word(v.lt),
        low_word(v.rt),
        high_word(v.rt),
        low_word(v.lb),
        high_word(v.lb),
        low_word(v.rb),
        high_word(v.rb),
    ]
}

/// The 128-bit MetroHash digest, with seed 0, of the byte string that holds
/// the given 64-bit words one after the other, as two words.
pub uninterp spec fn metro_digest(words: Seq<u64>) -> (u64, u64);

/// The content hash of a value: the digest of its words, first word low.
pub open spec fn hash_of(v: QuadTreeValue) -> u128 {
    let d = metro_digest(value_words(v));
    (((d.1 as u128) << 64) | (d.0 as u128))
}

/// Calls `MetroHash128` of the crate metrohash: a hasher with seed 0 is fed
/// the words one after the other, each as its eight bytes in the byte order
/// of the machine, which is the order in which the hasher reads them back,
/// and is asked for its 128-bit digest.  The contract claims no more than
/// that the digest is a function of the words.
#[verifier::external_body]
fn metro128(words: &[u64; 8]) -> (r: (u64, u64))
    ensures
        r == metro_digest(words@),
{
    let mut hasher = MetroHash128::new();
    for w in words.iter() {
        hasher.write(&w.to_ne_bytes());
    }
    hasher.finish128()
}

impl QuadTreeValue {
    pub fn to_array(&self) -> (r: [u128; 4])
        ensures
            r@ == seq![self.lt, self.rt, self.lb, self.rb],
    {
        let r = [self.lt, self.rt, self.lb, self.rb];
        assert(r@ =~= seq![self.lt, self.rt, self.lb, self.rb]);
        r
    }

    pub fn from_array(arr: &[u128; 4]) -> (v: QuadTreeValue)
        ensures
            v == (QuadTreeValue { lt: arr@[0], rt: arr@[1], lb: arr@[2], rb: arr@[3] }),
    {
        QuadTreeValue { lt: arr[0], rt: arr[1], lb: arr[2], rb: arr[3] }
    }

    /// The key under which the value is stored: its content hash.
    pub fn key(&self) -> (k: u128)
        ensures
            k == hash_of(*self),
    {
        let mask: u128 = 0xffff_ffff_ffff_ffff;
        assert forall|x: u128| #![auto] x & 0xffff_ffff_ffff_ffff <= 0xffff_ffff_ffff_ffff by {
            assert(x & 0xffff_ffff_ffff_ffff <= 0xffff_ffff_ffff_ffffu128) by (bit_vector);
        }
        assert forall|x: u128| #![auto] x >> 64 <= 0xffff_ffff_ffff_ffff by {
            assert(x >> 64 <= 0xffff_ffff_ffff_ffffu128) by (bit_vector);
        }
        let words: [u64; 8] = [
            (self.lt & mask) as u64,
            (self.lt >> 64) as u64,
            (self.rt & mask) as u64,
            (self.rt >> 64) as u64,
            (self.lb & mask) as u64,
            (self.lb >> 64) as u64,
            (self.rb & mask) as u64,
            (self.rb >> 64) as u64,
        ];
        assert(words@ =~= value_words(*self));
        let d = metro128(&words);
        ((d.1 as u128) << 64) | (d.0 as u128)
    }

    /// Whether the quadrants are raw blocks.  The first quadrant decides: the
    /// quadrants of a value are all of one kind.
    pub fn is_raw(&self) -> (r: bool)
        ensures
            r == is_raw_key(self.lt),
    {
        node_is_raw(self.lt)
    }
}

/// Canonical keys: a value has one key, its content hash, so the same
/// quadrants are given the same key whenever they are stored.
pub proof fn lemma_same_content_same_key(a: QuadTreeValue, b: QuadTreeValue)
    requires
        a == b,
    ensures
        hash_of(a) == hash_of(b),
{
}

} // verus!
