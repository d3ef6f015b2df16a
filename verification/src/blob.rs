//! Embeddings as the bytes that the database stores: the numbers one after another,
//! four bytes each, in the byte order of the machine.

use vstd::prelude::*;

use crate::ieee::Real32;

verus! {

/// The order of the bytes of a number.
#[derive(Clone, Copy, PartialEq, Eq, Structural, Debug)]
pub enum ByteOrder {
    /// Lowest byte first.
    Little,
    /// Highest byte first.
    Big,
}

/// The weight of byte `k` of four is 256 to this power.
pub open spec fn place(order: ByteOrder, k: int) -> int {
    match order {
        ByteOrder::Little => k,
        ByteOrder::Big => 3 - k,
    }
}

/// Digit `p` of `x` to the base 256.
pub open spec fn digit(x: u32, p: int) -> u8 {
    if p == 0 {
        (x as int % 256) as u8
    } else if p == 1 {
        (x as int / 256 % 256) as u8
    } else if p == 2 {
        (x as int / 0x1_0000 % 256) as u8
    } else {
        (x as int / 0x100_0000) as u8
    }
}

/// The number with these four digits to the base 256, lowest first.
pub open spec fn number(d0: u8, d1: u8, d2: u8, d3: u8) -> u32 {
    (d0 + 256 * d1 + 0x1_0000 * d2 + 0x100_0000 * d3) as u32
}

/// The number whose four bytes start at `at`.
pub open spec fn word(bytes: Seq<u8>, at: int, order: ByteOrder) -> Real32 {
    Real32 {
        bits: match order {
            ByteOrder::Little => number(bytes[at], bytes[at + 1], bytes[at + 2], bytes[at + 3]),
            ByteOrder::Big => number(bytes[at + 3], bytes[at + 2], bytes[at + 1], bytes[at]),
        },
    }
}

/// The bytes of an embedding.
pub open spec fn encoded(values: Seq<Real32>, order: ByteOrder) -> Seq<u8> {
    Seq::new(4 * values.len(), |i: int| digit(values[i / 4].bits, place(order, i % 4)))
}

/// The embedding with these bytes. What is left over after the last whole number is
/// ignored.
pub open spec fn decoded(bytes: Seq<u8>, order: ByteOrder) -> Seq<Real32> {
    Seq::new(bytes.len() / 4, |k: int| word(bytes, 4 * k, order))
}

/// What is written is read back.
pub proof fn lemma_decode_reverses_encode(values: Seq<Real32>, order: ByteOrder)
    ensures
        decoded(encoded(values, order), order) == values,
{
    let bytes = encoded(values, order);
    assert forall|k: int| 0 <= k < values.len() implies word(bytes, 4 * k, order) == values[k] by {
        assert((4 * k) / 4 == k && (4 * k + 1) / 4 == k && (4 * k + 2) / 4 == k && (4 * k + 3) / 4 == k);
        let x = values[k].bits;
        assert(number(digit(x, 0), digit(x, 1), digit(x, 2), digit(x, 3)) == x);
    }
    assert(decoded(bytes, order) =~= values);
}

/// Two bytes that hold the number one in the byte order of the machine.
///
/// Trusted: `u16::to_ne_bytes` gives the bytes of its argument in the machine's order, so
/// for one the low byte is 1 and the high byte is 0, and either may come first.
#[verifier::external_body]
fn one_in_machine_order() -> (bytes: [u8; 2])
    ensures
        bytes@ == seq![1u8, 0u8] || bytes@ == seq![0u8, 1u8],
{
    1u16.to_ne_bytes()
}

/// The byte order in which the number one has these bytes.
pub fn order_of(one: &[u8; 2]) -> (order: ByteOrder)
    ensures
        order == (if one@[0] == 1 {
            ByteOrder::Little
        } else {
            ByteOrder::Big
        }),
{
    if one[0] == 1 {
        ByteOrder::Little
    } else {
        ByteOrder::Big
    }
}

/// Whether the machine gave the number one these bytes: the outcome of a call of
/// `one_in_machine_order`.
pub closed spec fn is_machine_one(one: [u8; 2]) -> bool {
    call_ensures(one_in_machine_order, (), one)
}

/// The byte order of the machine, read off the bytes that it gives the number one. Which
/// one it is, the machine decides.
pub fn machine_order() -> (order: ByteOrder)
    ensures
        exists|one: [u8; 2]| #[trigger]
            is_machine_one(one) && order == (if one@[0] == 1 {
                ByteOrder::Little
            } else {
                ByteOrder::Big
            }),
{
    let one = one_in_machine_order();
    assert(is_machine_one(one));
    order_of(&one)
}

/// The bytes of an embedding.
pub fn encode_embedding(values: &[Real32], order: ByteOrder) -> (bytes: Vec<u8>)
    ensures
        bytes@ == encoded(values@, order),
{
    let mut bytes: Vec<u8> = Vec::new();
    let mut k: usize = 0;
    while k < values.len()
        invariant
            k <= values@.len(),
            bytes@ == encoded(values@.take(k as int), order),
        decreases values@.len() - k,
    {
        let x: u32 = values[k].bits;
        let d0: u8 = (x % 256) as u8;
        let d1: u8 = (x / 256 % 256) as u8;
        let d2: u8 = (x / 0x1_0000 % 256) as u8;
        let d3: u8 = (x / 0x100_0000) as u8;
        match order {
            ByteOrder::Little => {
                bytes.push(d0);
                bytes.push(d1);
                bytes.push(d2);
                bytes.push(d3);
            },
            ByteOrder::Big => {
                bytes.push(d3);
                bytes.push(d2);
                bytes.push(d1);
                bytes.push(d0);
            },
        }
        assert(bytes@ =~= encoded(values@.take(k + 1), order));
        k = k + 1;
    }
    assert(values@.take(values@.len() as int) =~= values@);
    bytes
}

/// The embedding with these bytes.
pub fn decode_embedding(bytes: &[u8], order: ByteOrder) -> (values: Vec<Real32>)
    ensures
        values@ == decoded(bytes@, order),
{
    let mut values: Vec<Real32> = Vec::new();
    let len: usize = bytes.len();
    let n: usize = len / 4;
    let mut k: usize = 0;
    while k < n
        invariant
            k <= n,
            len == bytes@.len(),
            n == len / 4,
            values@ == decoded(bytes@, order).take(k as int),
        decreases n - k,
    {
        let at: usize = 4 * k;
        let (d0, d1, d2, d3): (u8, u8, u8, u8) = match order {
            ByteOrder::Little => (bytes[at], bytes[at + 1], bytes[at + 2], bytes[at + 3]),
            ByteOrder::Big => (bytes[at + 3], bytes[at + 2], bytes[at + 1], bytes[at]),
        };
        values.push(
            Real32::from_bits(
                d0 as u32 + 256 * (d1 as u32) + 0x1_0000 * (d2 as u32) + 0x100_0000 * (d3 as u32),
            ),
        );
        assert(values@ =~= decoded(bytes@, order).take(k + 1));
        k = k + 1;
    }
    assert(values@ =~= decoded(bytes@, order));
    values
}

/// Byte by byte, what stands for number `k`: its digits to the base 256 from place `4 * k`
/// on, the lowest first or last.
pub proof fn lemma_bytes_of_a_number(values: Seq<Real32>, order: ByteOrder, k: int)
    requires
        0 <= k < values.len(),
    ensures
        encoded(values, order).len() == 4 * values.len(),
        order == ByteOrder::Little ==> values[k].bits == encoded(values, order)[4 * k] + 256
            * encoded(values, order)[4 * k + 1] + 65536 * encoded(values, order)[4 * k + 2] + 16777216
            * encoded(values, order)[4 * k + 3],
        order == ByteOrder::Big ==> values[k].bits == 16777216 * encoded(values, order)[4 * k] + 65536
            * encoded(values, order)[4 * k + 1] + 256 * encoded(values, order)[4 * k + 2] + encoded(
            values,
            order,
        )[4 * k + 3],
{
    assert((4 * k) / 4 == k && (4 * k + 1) / 4 == k && (4 * k + 2) / 4 == k && (4 * k + 3) / 4 == k);
}

/// The number that four bytes stand for.
pub proof fn lemma_number_of_bytes(bytes: Seq<u8>, order: ByteOrder, k: int)
    requires
        0 <= 4 * k,
        4 * k + 3 < bytes.len(),
    ensures
        decoded(bytes, order).len() == bytes.len() / 4,
        order == ByteOrder::Little ==> decoded(bytes, order)[k].bits == bytes[4 * k] + 256 * bytes[4 * k
            + 1] + 65536 * bytes[4 * k + 2] + 16777216 * bytes[4 * k + 3],
        order == ByteOrder::Big ==> decoded(bytes, order)[k].bits == 16777216 * bytes[4 * k] + 65536
            * bytes[4 * k + 1] + 256 * bytes[4 * k + 2] + bytes[4 * k + 3],
{
}

/// What the machine gave the number one came from the machine.
proof fn lemma_ones_come_from_the_machine(one: [u8; 2])
    requires
        is_machine_one(one),
    ensures
        call_ensures(one_in_machine_order, (), one),
        one@ == seq![1u8, 0u8] || one@ == seq![0u8, 1u8],
{
}

} // verus!
