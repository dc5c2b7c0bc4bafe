//! Content hashing: the byte writes that feed a hasher, and what they identify.

use std::hash::{DefaultHasher, Hasher};

use vstd::bytes::{
    lemma_auto_spec_u16_to_from_le_bytes, lemma_auto_spec_u32_to_from_le_bytes,
    lemma_auto_spec_u64_to_from_le_bytes, spec_u16_to_le_bytes, spec_u32_to_le_bytes,
    spec_u64_to_le_bytes, u16_to_le_bytes, u32_to_le_bytes, u64_to_le_bytes,
};
use vstd::prelude::*;
use vstd::std_specs::hash::DefaultHasherAdditionalSpecFns;

verus! {

/// The digest of a sequence of writes.
pub open spec fn digest(writes: Seq<Seq<u8>>) -> u64 {
    DefaultHasher::spec_finish(writes)
}

pub open spec fn byte_write(b: u8) -> Seq<u8> {
    seq![b]
}

pub open spec fn flag_write(b: bool) -> Seq<u8> {
    seq![if b { 1u8 } else { 0u8 }]
}

pub open spec fn half_write(h: u16) -> Seq<u8> {
    spec_u16_to_le_bytes(h)
}

pub open spec fn word_write(w: u32) -> Seq<u8> {
    spec_u32_to_le_bytes(w)
}

pub open spec fn long_write(l: u64) -> Seq<u8> {
    spec_u64_to_le_bytes(l)
}

pub fn write_byte(hasher: &mut DefaultHasher, b: u8)
    ensures
        final(hasher)@ == old(hasher)@.push(byte_write(b)),
{
    let bytes: Vec<u8> = vec![b];
    hasher.write(bytes.as_slice());
    assert(bytes@ =~= byte_write(b));
}

pub fn write_flag(hasher: &mut DefaultHasher, b: bool)
    ensures
        final(hasher)@ == old(hasher)@.push(flag_write(b)),
{
    let value: u8 = if b {
        1
    } else {
        0
    };
    write_byte(hasher, value);
}

pub fn write_half(hasher: &mut DefaultHasher, h: u16)
    ensures
        final(hasher)@ == old(hasher)@.push(half_write(h)),
{
    let bytes: Vec<u8> = u16_to_le_bytes(h);
    hasher.write(bytes.as_slice());
}

pub fn write_word(hasher: &mut DefaultHasher, w: u32)
    ensures
        final(hasher)@ == old(hasher)@.push(word_write(w)),
{
    let bytes: Vec<u8> = u32_to_le_bytes(w);
    hasher.write(bytes.as_slice());
}

pub fn write_long(hasher: &mut DefaultHasher, l: u64)
    ensures
        final(hasher)@ == old(hasher)@.push(long_write(l)),
{
    let bytes: Vec<u8> = u64_to_le_bytes(l);
    hasher.write(bytes.as_slice());
}

/// A write gives its value back.
pub proof fn lemma_writes_identify()
    ensures
        forall|a: u8, b: u8| #[trigger] byte_write(a) == #[trigger] byte_write(b) ==> a == b,
        forall|a: bool, b: bool| #[trigger] flag_write(a) == #[trigger] flag_write(b) ==> a == b,
        forall|a: u16, b: u16| #[trigger] half_write(a) == #[trigger] half_write(b) ==> a == b,
        forall|a: u32, b: u32| #[trigger] word_write(a) == #[trigger] word_write(b) ==> a == b,
        forall|a: u64, b: u64| #[trigger] long_write(a) == #[trigger] long_write(b) ==> a == b,
{
    lemma_auto_spec_u16_to_from_le_bytes();
    lemma_auto_spec_u32_to_from_le_bytes();
    lemma_auto_spec_u64_to_from_le_bytes();
    assert forall|a: u8, b: u8| #[trigger] byte_write(a) == #[trigger] byte_write(b) implies a
        == b by {
        assert(byte_write(a)[0] == byte_write(b)[0]);
    }
    assert forall|a: bool, b: bool| #[trigger] flag_write(a) == #[trigger] flag_write(b) implies a
        == b by {
        assert(flag_write(a)[0] == flag_write(b)[0]);
    }
    assert forall|a: u16, b: u16| #[trigger] half_write(a) == #[trigger] half_write(b) implies a
        == b by {
        assert(half_write(a).len() == 2);
        assert(half_write(b).len() == 2);
    }
    assert forall|a: u32, b: u32| #[trigger] word_write(a) == #[trigger] word_write(b) implies a
        == b by {
        assert(word_write(a).len() == 4);
        assert(word_write(b).len() == 4);
    }
    assert forall|a: u64, b: u64| #[trigger] long_write(a) == #[trigger] long_write(b) implies a
        == b by {
        assert(long_write(a).len() == 8);
        assert(long_write(b).len() == 8);
    }
}

} // verus!
