//! Bytes as text, in the standard alphabet with padding.

use base64::Engine;
use vstd::prelude::*;

verus! {

/// The character for a number below 64.
pub open spec fn symbol(v: int) -> char {
    if v < 26 {
        ('A' as int + v) as char
    } else if v < 52 {
        ('a' as int + v - 26) as char
    } else if v < 62 {
        ('0' as int + v - 52) as char
    } else if v == 62 {
        '+'
    } else {
        '/'
    }
}

/// Byte `k`, or 0 behind the last.
pub open spec fn byte_at(bytes: Seq<u8>, k: int) -> int {
    if 0 <= k < bytes.len() {
        bytes[k] as int
    } else {
        0
    }
}

/// The bits of `bytes` from bit `6 * i` on, six of them, as a number.
pub open spec fn sextet(bytes: Seq<u8>, i: int) -> int {
    let k = 3 * (i / 4);
    if i % 4 == 0 {
        byte_at(bytes, k) / 4
    } else if i % 4 == 1 {
        byte_at(bytes, k) % 4 * 16 + byte_at(bytes, k + 1) / 16
    } else if i % 4 == 2 {
        byte_at(bytes, k + 1) % 16 * 4 + byte_at(bytes, k + 2) / 64
    } else {
        byte_at(bytes, k + 2) % 64
    }
}

/// How long the text for `n` bytes is.
pub open spec fn encoded_len(n: int) -> int {
    (n + 2) / 3 * 4
}

/// Six bits to a character; an equals sign where no bit is left, up to a multiple of
/// four characters.
pub open spec fn base64_of(bytes: Seq<u8>) -> Seq<char> {
    Seq::new(
        encoded_len(bytes.len() as int) as nat,
        |i: int|
            if 6 * i < 8 * bytes.len() {
                symbol(sextet(bytes, i))
            } else {
                '='
            },
    )
}

/// Bytes as text.
///
/// Trusted: `encode` of the `STANDARD` engine, whose alphabet is A to Z, a to z, 0 to 9, `+`
/// and `/` and which pads, gives this text. A text too long for the machine's memory is
/// left out: the engine would panic.
#[verifier::external_body]
pub(crate) fn encode(bytes: &[u8]) -> (text: String)
    requires
        encoded_len(bytes@.len() as int) <= isize::MAX,
    ensures
        text@ == base64_of(bytes@),
{
    base64::engine::general_purpose::STANDARD.encode(bytes)
}

proof fn lemma_symbols_differ(v: int, w: int)
    requires
        0 <= v < 64,
        0 <= w < 64,
    ensures
        symbol(v) != '=',
        symbol(v) == symbol(w) ==> v == w,
{
}

proof fn lemma_sextet_range(bytes: Seq<u8>, i: int)
    requires
        0 <= i,
    ensures
        0 <= sextet(bytes, i) < 64,
{
}

/// The bytes of three from the numbers of four.
proof fn lemma_sextets_determine_bytes(a: Seq<u8>, b: Seq<u8>, q: int)
    requires
        0 <= q,
        sextet(a, 4 * q) == sextet(b, 4 * q),
        sextet(a, 4 * q + 1) == sextet(b, 4 * q + 1),
        sextet(a, 4 * q + 2) == sextet(b, 4 * q + 2),
        sextet(a, 4 * q + 3) == sextet(b, 4 * q + 3),
    ensures
        byte_at(a, 3 * q) == byte_at(b, 3 * q),
        byte_at(a, 3 * q + 1) == byte_at(b, 3 * q + 1),
        byte_at(a, 3 * q + 2) == byte_at(b, 3 * q + 2),
{
    assert((4 * q) / 4 == q && (4 * q + 1) / 4 == q && (4 * q + 2) / 4 == q && (4 * q + 3) / 4 == q);
}

/// Where the two texts agree, so do the numbers at each place.
proof fn lemma_text_determines_sextet(a: Seq<u8>, b: Seq<u8>, i: int)
    requires
        a.len() == b.len(),
        base64_of(a) == base64_of(b),
        0 <= i < encoded_len(a.len() as int),
    ensures
        sextet(a, i) == sextet(b, i),
{
    lemma_sextet_range(a, i);
    lemma_sextet_range(b, i);
    assert(base64_of(a)[i] == base64_of(b)[i]);
    if 6 * i < 8 * a.len() {
        lemma_symbols_differ(sextet(a, i), sextet(b, i));
        assert(base64_of(a)[i] == symbol(sextet(a, i)));
        assert(base64_of(b)[i] == symbol(sextet(b, i)));
    } else {
        lemma_no_bits_left(a, i);
        lemma_no_bits_left(b, i);
    }
}

/// Behind the last bit there are only zeros.
proof fn lemma_no_bits_left(bytes: Seq<u8>, i: int)
    requires
        0 <= i,
        6 * i >= 8 * bytes.len(),
    ensures
        sextet(bytes, i) == 0,
{
    let q = i / 4;
    assert(i == 4 * q + i % 4);
    if i % 4 == 0 || i % 4 == 1 {
        assert(3 * q >= bytes.len());
    } else if i % 4 == 2 {
        assert(3 * q + 1 >= bytes.len());
    } else {
        assert(3 * q + 2 >= bytes.len());
    }
}

/// Different images are sent as different texts.
pub proof fn lemma_text_determines_bytes(a: Seq<u8>, b: Seq<u8>)
    requires
        base64_of(a) == base64_of(b),
    ensures
        a == b,
{
    let x = base64_of(a);
    let y = base64_of(b);
    let la = a.len() as int;
    let lb = b.len() as int;
    assert(x.len() == encoded_len(la) && y.len() == encoded_len(lb));
    assert((la + 2) / 3 == (lb + 2) / 3);
    assert(la == lb) by {
        if la < lb {
            lemma_padding_differs(a, b);
        }
        if lb < la {
            lemma_padding_differs(b, a);
        }
    }
    assert forall|k: int| 0 <= k < la implies a[k] == b[k] by {
        let q = k / 3;
        assert(4 * q + 3 < encoded_len(la));
        lemma_text_determines_sextet(a, b, 4 * q);
        lemma_text_determines_sextet(a, b, 4 * q + 1);
        lemma_text_determines_sextet(a, b, 4 * q + 2);
        lemma_text_determines_sextet(a, b, 4 * q + 3);
        lemma_sextets_determine_bytes(a, b, q);
        assert(byte_at(a, k) == byte_at(b, k));
    }
    assert(a =~= b);
}

/// The padding tells how many bytes there are in the last group.
proof fn lemma_padding_differs(a: Seq<u8>, b: Seq<u8>)
    requires
        a.len() < b.len(),
        (a.len() + 2) / 3 == (b.len() + 2) / 3,
    ensures
        base64_of(a) != base64_of(b),
{
    let la = a.len() as int;
    let i = encoded_len(la) - 4 + la - 3 * ((la + 2) / 3 - 1) + 1;
    assert(6 * i >= 8 * la && 6 * i < 8 * b.len() && 0 <= i < encoded_len(la));
    lemma_sextet_range(b, i);
    lemma_symbols_differ(sextet(b, i), 0);
    assert(base64_of(a)[i] == '=');
    assert(base64_of(b)[i] == symbol(sextet(b, i)));
}

/// The number that a character stands for.
pub open spec fn symbol_value(c: char) -> int {
    if 'A' <= c && c <= 'Z' {
        c as int - 65
    } else if 'a' <= c && c <= 'z' {
        c as int - 97 + 26
    } else if '0' <= c && c <= '9' {
        c as int - 48 + 52
    } else if c == '+' {
        62
    } else {
        63
    }
}

/// Each number below 64 has a character of its own that stands for it.
pub proof fn lemma_symbols_stand_for_their_numbers(v: int)
    requires
        0 <= v < 64,
    ensures
        symbol_value(symbol(v)) == v,
{
}

/// The bits of three bytes, six at a time.
proof fn lemma_bits_of_three_bytes(bytes: Seq<u8>, q: int)
    requires
        0 <= q,
        3 * q + 2 < bytes.len(),
    ensures
        sextet(bytes, 4 * q) * 262144 + sextet(bytes, 4 * q + 1) * 4096 + sextet(bytes, 4 * q + 2)
            * 64 + sextet(bytes, 4 * q + 3) == bytes[3 * q] * 65536 + bytes[3 * q + 1] * 256
            + bytes[3 * q + 2],
{
    let a = bytes[3 * q] as int;
    let b = bytes[3 * q + 1] as int;
    let c = bytes[3 * q + 2] as int;
    assert((4 * q) / 4 == q && (4 * q) % 4 == 0);
    assert((4 * q + 1) / 4 == q && (4 * q + 1) % 4 == 1);
    assert((4 * q + 2) / 4 == q && (4 * q + 2) % 4 == 2);
    assert((4 * q + 3) / 4 == q && (4 * q + 3) % 4 == 3);
    assert(sextet(bytes, 4 * q) == a / 4);
    assert(sextet(bytes, 4 * q + 1) == a % 4 * 16 + b / 16);
    assert(sextet(bytes, 4 * q + 2) == b % 16 * 4 + c / 64);
    assert(sextet(bytes, 4 * q + 3) == c % 64);
}

/// Four characters stand for three bytes, as one number of 24 bits.
pub proof fn lemma_four_characters_stand_for_three_bytes(bytes: Seq<u8>, q: int)
    requires
        0 <= q,
        3 * q + 2 < bytes.len(),
    ensures
        ({
            let t = base64_of(bytes);
            &&& 4 * q + 3 < t.len()
            &&& symbol_value(t[4 * q]) * 262144 + symbol_value(t[4 * q + 1]) * 4096 + symbol_value(
                t[4 * q + 2],
            ) * 64 + symbol_value(t[4 * q + 3]) == bytes[3 * q] * 65536 + bytes[3 * q + 1] * 256
                + bytes[3 * q + 2]
        }),
{
    lemma_character_stands_for_its_bits(bytes, 4 * q);
    lemma_character_stands_for_its_bits(bytes, 4 * q + 1);
    lemma_character_stands_for_its_bits(bytes, 4 * q + 2);
    lemma_character_stands_for_its_bits(bytes, 4 * q + 3);
    lemma_bits_of_three_bytes(bytes, q);
}

proof fn lemma_character_stands_for_its_bits(bytes: Seq<u8>, i: int)
    requires
        0 <= i,
        6 * i < 8 * bytes.len(),
    ensures
        i < base64_of(bytes).len(),
        symbol_value(base64_of(bytes)[i]) == sextet(bytes, i),
{
    lemma_sextet_range(bytes, i);
    lemma_symbols_stand_for_their_numbers(sextet(bytes, i));
}

/// A text has four characters for each group of three bytes, the last group may be short,
/// and equals signs fill it up: one for two bytes, two for one.
pub proof fn lemma_short_groups_are_filled_up(bytes: Seq<u8>)
    ensures
        bytes.len() % 3 == 0 ==> base64_of(bytes).len() == bytes.len() / 3 * 4,
        bytes.len() % 3 != 0 ==> base64_of(bytes).len() == bytes.len() / 3 * 4 + 4,
        bytes.len() % 3 != 0 ==> base64_of(bytes).last() == '=',
        bytes.len() % 3 == 1 ==> base64_of(bytes)[base64_of(bytes).len() - 2] == '=',
{
}

} // verus!
