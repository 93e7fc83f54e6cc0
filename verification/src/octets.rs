//! IP addresses as the bytes that stand for them, high byte first.

use crate::keys::key_value;
use crate::peer_record::be_bytes64;
use crate::record_bundle::{be_bytes, lemma_be_bytes, push_be};
use vstd::prelude::*;

verus! {

/// The four bytes of an IPv4 address.
pub open spec fn v4_octets(bits: u32) -> Seq<u8> {
    be_bytes(bits as nat)
}

/// The sixteen bytes of an IPv6 address.
pub open spec fn v6_octets(bits: u128) -> Seq<u8> {
    be_bytes64(bits as nat / 0x1_0000_0000_0000_0000) + be_bytes64(
        bits as nat % 0x1_0000_0000_0000_0000,
    )
}

proof fn lemma_value_of_last_four(bytes: Seq<u8>)
    requires
        bytes.len() >= 4,
    ensures
        key_value(bytes) == 0x1_0000_0000 * key_value(bytes.take(bytes.len() - 4)) + key_value(
            bytes.skip(bytes.len() - 4),
        ),
{
    reveal_with_fuel(key_value, 5);
    let count = bytes.len() as int;
    let head = bytes.take(count - 4);
    let tail = bytes.skip(count - 4);
    assert(bytes.drop_last() =~= bytes.take(count - 1));
    assert(bytes.take(count - 1).drop_last() =~= bytes.take(count - 2));
    assert(bytes.take(count - 2).drop_last() =~= bytes.take(count - 3));
    assert(bytes.take(count - 3).drop_last() =~= head);
    assert(tail.drop_last() =~= tail.take(3));
    assert(tail.take(3).drop_last() =~= tail.take(2));
    assert(tail.take(2).drop_last() =~= tail.take(1));
    assert(tail.take(1).drop_last() =~= Seq::<u8>::empty());
}

proof fn lemma_value_of_four(bytes: Seq<u8>)
    requires
        bytes.len() == 4,
    ensures
        key_value(bytes) == 0x100_0000 * bytes[0] + 0x1_0000 * bytes[1] + 256 * bytes[2] + bytes[3],
        key_value(bytes) <= 0xffff_ffff,
{
    reveal_with_fuel(key_value, 5);
    assert(bytes.drop_last() =~= bytes.take(3));
    assert(bytes.take(3).drop_last() =~= bytes.take(2));
    assert(bytes.take(2).drop_last() =~= bytes.take(1));
    assert(bytes.take(1).drop_last() =~= Seq::<u8>::empty());
}

proof fn lemma_value_of_sixteen(bytes: Seq<u8>)
    requires
        bytes.len() == 16,
    ensures
        key_value(bytes) == 0x1_0000_0000_0000_0000_0000_0000 * key_value(bytes.subrange(0, 4))
            + 0x1_0000_0000_0000_0000 * key_value(bytes.subrange(4, 8)) + 0x1_0000_0000 * key_value(
            bytes.subrange(8, 12),
        ) + key_value(bytes.subrange(12, 16)),
{
    let twelve = bytes.take(12);
    let eight = bytes.take(8);
    lemma_value_of_last_four(bytes);
    lemma_value_of_last_four(twelve);
    lemma_value_of_last_four(eight);
    assert(bytes.skip(12) =~= bytes.subrange(12, 16));
    assert(twelve.skip(8) =~= bytes.subrange(8, 12));
    assert(twelve.take(8) =~= eight);
    assert(eight.skip(4) =~= bytes.subrange(4, 8));
    assert(eight.take(4) =~= bytes.subrange(0, 4));
}

/// The bytes of an IPv4 address spell its bits.
pub proof fn lemma_v4_octets(bits: u32)
    ensures
        key_value(v4_octets(bits)) == bits,
        v4_octets(bits).len() == 4,
{
    lemma_be_bytes(bits as nat);
}

/// The bytes of an IPv6 address spell its bits.
pub proof fn lemma_v6_octets(bits: u128)
    ensures
        key_value(v6_octets(bits)) == bits,
        v6_octets(bits).len() == 16,
{
    let high = bits as nat / 0x1_0000_0000_0000_0000;
    let low = bits as nat % 0x1_0000_0000_0000_0000;
    let octets = v6_octets(bits);
    lemma_be_bytes(high / 0x1_0000_0000);
    lemma_be_bytes(high % 0x1_0000_0000);
    lemma_be_bytes(low / 0x1_0000_0000);
    lemma_be_bytes(low % 0x1_0000_0000);
    lemma_value_of_sixteen(octets);
    assert(octets.subrange(0, 4) =~= be_bytes(high / 0x1_0000_0000));
    assert(octets.subrange(4, 8) =~= be_bytes(high % 0x1_0000_0000));
    assert(octets.subrange(8, 12) =~= be_bytes(low / 0x1_0000_0000));
    assert(octets.subrange(12, 16) =~= be_bytes(low % 0x1_0000_0000));
}

/// Get the four bytes of an IPv4 address.
pub fn to_v4_octets(bits: u32) -> (octets: [u8; 4])
    ensures
        octets@ == v4_octets(bits),
{
    let octets = [
        (bits / 0x100_0000) as u8,
        (bits / 0x1_0000 % 256) as u8,
        (bits / 256 % 256) as u8,
        (bits % 256) as u8,
    ];
    assert(octets@ =~= v4_octets(bits));
    octets
}

/// Get the sixteen bytes of an IPv6 address.
pub fn to_v6_octets(bits: u128) -> (octets: [u8; 16])
    ensures
        octets@ == v6_octets(bits),
{
    let high: u64 = (bits / 0x1_0000_0000_0000_0000) as u64;
    let low: u64 = (bits % 0x1_0000_0000_0000_0000) as u64;
    let mut bytes: Vec<u8> = Vec::new();
    push_be(&mut bytes, (high / 0x1_0000_0000) as u32);
    push_be(&mut bytes, (high % 0x1_0000_0000) as u32);
    push_be(&mut bytes, (low / 0x1_0000_0000) as u32);
    push_be(&mut bytes, (low % 0x1_0000_0000) as u32);
    proof {
        assert(bytes@ =~= v6_octets(bits));
        lemma_v6_octets(bits);
    }
    let mut octets: [u8; 16] = [0u8;16];
    let mut index: usize = 0;
    while index < 16
        invariant
            index <= 16,
            bytes@.len() == 16,
            forall|i: int| 0 <= i < index ==> octets@[i] == bytes@[i],
        decreases 16 - index,
    {
        octets[index] = bytes[index];
        index += 1;
    }
    assert(octets@ =~= bytes@);
    octets
}

fn word(a: u8, b: u8, c: u8, d: u8) -> (value: u32)
    ensures
        value == key_value(seq![a, b, c, d]),
{
    proof {
        lemma_value_of_four(seq![a, b, c, d]);
    }
    0x100_0000 * (a as u32) + 0x1_0000 * (b as u32) + 256 * (c as u32) + (d as u32)
}

/// Get the bits of an IPv4 address from its bytes.
pub fn from_v4_octets(octets: &[u8; 4]) -> (bits: u32)
    ensures
        bits == key_value(octets@),
        key_value(octets@) <= u32::MAX,
{
    assert(octets@ =~= seq![octets@[0], octets@[1], octets@[2], octets@[3]]);
    word(octets[0], octets[1], octets[2], octets[3])
}

/// Get the bits of an IPv6 address from its bytes.
pub fn from_v6_octets(octets: &[u8; 16]) -> (bits: u128)
    ensures
        bits == key_value(octets@),
        key_value(octets@) <= u128::MAX,
{
    let ghost all = octets@;
    let first: u128 = word(octets[0], octets[1], octets[2], octets[3]) as u128;
    let second: u128 = word(octets[4], octets[5], octets[6], octets[7]) as u128;
    let third: u128 = word(octets[8], octets[9], octets[10], octets[11]) as u128;
    let fourth: u128 = word(octets[12], octets[13], octets[14], octets[15]) as u128;
    proof {
        lemma_value_of_sixteen(all);
        assert(all.subrange(0, 4) =~= seq![all[0], all[1], all[2], all[3]]);
        assert(all.subrange(4, 8) =~= seq![all[4], all[5], all[6], all[7]]);
        assert(all.subrange(8, 12) =~= seq![all[8], all[9], all[10], all[11]]);
        assert(all.subrange(12, 16) =~= seq![all[12], all[13], all[14], all[15]]);
    }
    first * 0x1_0000_0000_0000_0000_0000_0000 + second * 0x1_0000_0000_0000_0000 + third
        * 0x1_0000_0000 + fourth
}

} // verus!
