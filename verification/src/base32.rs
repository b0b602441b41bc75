//! Unpadded base32, as RFC 4648 spells it, and its lowercase form.

use vstd::prelude::*;

use data_encoding::{DecodeError, DecodePartial, BASE32_NOPAD};

verus! {

/// Bit `k` of a byte, counted from the most significant.
pub open spec fn bit_of(byte: u8, k: int) -> int {
    if k == 0 {
        byte as int / 128 % 2
    } else if k == 1 {
        byte as int / 64 % 2
    } else if k == 2 {
        byte as int / 32 % 2
    } else if k == 3 {
        byte as int / 16 % 2
    } else if k == 4 {
        byte as int / 8 % 2
    } else if k == 5 {
        byte as int / 4 % 2
    } else if k == 6 {
        byte as int / 2 % 2
    } else {
        byte as int % 2
    }
}

/// Bit `i` of a byte string; past its end every bit is zero.
pub open spec fn bit_at(bytes: Seq<u8>, i: int) -> int {
    if 0 <= i < 8 * bytes.len() {
        bit_of(bytes[i / 8], i % 8)
    } else {
        0
    }
}

/// The value of the `j`th group of five bits.
pub open spec fn group(bytes: Seq<u8>, j: int) -> int {
    16 * bit_at(bytes, 5 * j) + 8 * bit_at(bytes, 5 * j + 1) + 4 * bit_at(bytes, 5 * j + 2) + 2
        * bit_at(bytes, 5 * j + 3) + bit_at(bytes, 5 * j + 4)
}

/// The symbol for a value below 32: `A` to `Z`, then `2` to `7`.
pub open spec fn symbol(value: int) -> u8 {
    if value < 26 {
        (65 + value) as u8
    } else {
        (50 + value - 26) as u8
    }
}

/// The unpadded base32 spelling of a byte string.
pub open spec fn base32(bytes: Seq<u8>) -> Seq<u8> {
    Seq::new(((8 * bytes.len() + 4) / 5) as nat, |j: int| symbol(group(bytes, j)))
}

/// A byte with ASCII capitals lowered.
pub open spec fn lower_byte(b: u8) -> u8 {
    if 65 <= b <= 90 {
        (b + 32) as u8
    } else {
        b
    }
}

/// A byte with ASCII small letters raised.
pub open spec fn upper_byte(b: u8) -> u8 {
    if 97 <= b <= 122 {
        (b - 32) as u8
    } else {
        b
    }
}

pub open spec fn lower(s: Seq<u8>) -> Seq<u8> {
    s.map_values(|b: u8| lower_byte(b))
}

pub open spec fn upper(s: Seq<u8>) -> Seq<u8> {
    s.map_values(|b: u8| upper_byte(b))
}

/// The canonical spelling: unpadded base32 in lowercase.
pub open spec fn spelling(bytes: Seq<u8>) -> Seq<u8> {
    lower(base32(bytes))
}

/// The characters that canonical spellings are made of.
pub open spec fn is_spelling_byte(b: u8) -> bool {
    97 <= b <= 122 || 50 <= b <= 55
}

proof fn lemma_bit_range(bytes: Seq<u8>, i: int)
    ensures
        0 <= bit_at(bytes, i) <= 1,
{
}

proof fn lemma_group_range(bytes: Seq<u8>, j: int)
    ensures
        0 <= group(bytes, j) < 32,
{
    lemma_bit_range(bytes, 5 * j);
    lemma_bit_range(bytes, 5 * j + 1);
    lemma_bit_range(bytes, 5 * j + 2);
    lemma_bit_range(bytes, 5 * j + 3);
    lemma_bit_range(bytes, 5 * j + 4);
}

proof fn lemma_byte_bits(a: u8, b: u8)
    requires
        forall|k: int| 0 <= k < 8 ==> bit_of(a, k) == bit_of(b, k),
    ensures
        a == b,
{
    lemma_byte_sum(a);
    lemma_byte_sum(b);
    assert(bit_of(a, 0) == bit_of(b, 0));
    assert(bit_of(a, 1) == bit_of(b, 1));
    assert(bit_of(a, 2) == bit_of(b, 2));
    assert(bit_of(a, 3) == bit_of(b, 3));
    assert(bit_of(a, 4) == bit_of(b, 4));
    assert(bit_of(a, 5) == bit_of(b, 5));
    assert(bit_of(a, 6) == bit_of(b, 6));
    assert(bit_of(a, 7) == bit_of(b, 7));
}

proof fn lemma_byte_sum(a: u8)
    ensures
        128 * bit_of(a, 0) + 64 * bit_of(a, 1) + 32 * bit_of(a, 2) + 16 * bit_of(a, 3) + 8 * bit_of(
            a,
            4,
        ) + 4 * bit_of(a, 5) + 2 * bit_of(a, 6) + bit_of(a, 7) == a as int,
{
    assert(128 * (a / 128 % 2) + 64 * (a / 64 % 2) + 32 * (a / 32 % 2) + 16 * (a / 16 % 2) + 8 * (a
        / 8 % 2) + 4 * (a / 4 % 2) + 2 * (a / 2 % 2) + (a % 2) == a) by (bit_vector);
}

/// Two byte strings with one base32 spelling are one string.
pub proof fn lemma_base32_injective(a: Seq<u8>, b: Seq<u8>)
    requires
        base32(a) == base32(b),
    ensures
        a == b,
{
    assert(base32(a).len() == (8 * a.len() + 4) / 5);
    assert(base32(b).len() == (8 * b.len() + 4) / 5);
    assert(a.len() == b.len()) by {
        let n = a.len() as int;
        let m = b.len() as int;
        assert((8 * n + 4) / 5 == (8 * m + 4) / 5);
        assert(n == m);
    }
    assert forall|j: int| 0 <= j < base32(a).len() implies group(a, j) == group(b, j) by {
        lemma_group_range(a, j);
        lemma_group_range(b, j);
        assert(base32(a)[j] == symbol(group(a, j)));
        assert(base32(b)[j] == symbol(group(b, j)));
    }
    assert forall|i: int| 0 <= i < 8 * a.len() implies bit_at(a, i) == bit_at(b, i) by {
        let j = i / 5;
        assert(group(a, j) == group(b, j));
        lemma_bit_range(a, 5 * j);
        lemma_bit_range(a, 5 * j + 1);
        lemma_bit_range(a, 5 * j + 2);
        lemma_bit_range(a, 5 * j + 3);
        lemma_bit_range(a, 5 * j + 4);
        lemma_bit_range(b, 5 * j);
        lemma_bit_range(b, 5 * j + 1);
        lemma_bit_range(b, 5 * j + 2);
        lemma_bit_range(b, 5 * j + 3);
        lemma_bit_range(b, 5 * j + 4);
        assert(i == 5 * j || i == 5 * j + 1 || i == 5 * j + 2 || i == 5 * j + 3 || i == 5 * j + 4);
    }
    assert forall|n: int| 0 <= n < a.len() implies a[n] == b[n] by {
        assert forall|k: int| 0 <= k < 8 implies bit_of(a[n], k) == bit_of(b[n], k) by {
            let i = 8 * n + k;
            assert(i / 8 == n && i % 8 == k);
            assert(bit_at(a, i) == bit_at(b, i));
        }
        lemma_byte_bits(a[n], b[n]);
    }
    assert(a =~= b);
}

/// Spellings are made of small letters and the digits 2 to 7, and raising
/// them gives the base32 form back.
pub proof fn lemma_spelling(bytes: Seq<u8>)
    ensures
        spelling(bytes).len() == (8 * bytes.len() + 4) / 5,
        forall|j: int|
            0 <= j < spelling(bytes).len() ==> is_spelling_byte(#[trigger] spelling(bytes)[j]),
        upper(spelling(bytes)) == base32(bytes),
        lower(spelling(bytes)) == spelling(bytes),
{
    assert forall|j: int| 0 <= j < spelling(bytes).len() implies is_spelling_byte(
        #[trigger] spelling(bytes)[j],
    ) && upper_byte(spelling(bytes)[j]) == base32(bytes)[j] && lower_byte(spelling(bytes)[j])
        == spelling(bytes)[j] by {
        lemma_group_range(bytes, j);
        assert(base32(bytes)[j] == symbol(group(bytes, j)));
    }
    assert(upper(spelling(bytes)) =~= base32(bytes));
    assert(lower(spelling(bytes)) =~= spelling(bytes));
}

/// Base32 symbols are ASCII.
pub proof fn lemma_symbols(bytes: Seq<u8>)
    ensures
        forall|j: int| 0 <= j < base32(bytes).len() ==> #[trigger] base32(bytes)[j] < 128,
{
    assert forall|j: int| 0 <= j < base32(bytes).len() implies #[trigger] base32(bytes)[j] < 128 by {
        lemma_group_range(bytes, j);
    }
}

/// Two byte strings with one canonical spelling are one string.
pub proof fn lemma_spelling_injective(a: Seq<u8>, b: Seq<u8>)
    requires
        spelling(a) == spelling(b),
    ensures
        a == b,
{
    lemma_spelling(a);
    lemma_spelling(b);
    lemma_base32_injective(a, b);
}

#[verifier::external_type_specification]
#[verifier::external_body]
pub struct ExDecodeError(DecodeError);

#[verifier::external_type_specification]
#[verifier::external_body]
pub struct ExDecodePartial(DecodePartial);

/// Calls `data_encoding::Encoding::encode_mut` on `BASE32_NOPAD`: the output
/// becomes the unpadded base32 spelling of a 32-byte key.
#[verifier::external_body]
pub(crate) fn encode_key(key: &[u8; 32], out: &mut [u8; 52])
    ensures
        final(out)@ == base32(key@),
{
    BASE32_NOPAD.encode_mut(key, out)
}

/// Calls `data_encoding::Encoding::decode_mut` on `BASE32_NOPAD`: a text of 52
/// bytes is accepted exactly when it spells some key, which is then written
/// out whole; the result counts the bytes written.
#[verifier::external_body]
pub(crate) fn decode_key(text: &[u8; 52], out: &mut [u8; 32]) -> (r: Result<usize, DecodePartial>)
    ensures
        match r {
            Ok(n) => n == 32 && base32(final(out)@) == text@,
            Err(_) => forall|b: Seq<u8>| #[trigger] base32(b) != text@,
        },
{
    BASE32_NOPAD.decode_mut(text, out)
}

/// Calls `data_encoding::Encoding::decode` on `BASE32_NOPAD`: a text is
/// accepted exactly when it is the spelling of some byte string, which is the
/// result.
#[verifier::external_body]
pub(crate) fn decode_text(text: &[u8]) -> (r: Result<Vec<u8>, DecodeError>)
    requires
        text@.len() <= usize::MAX / 8,
    ensures
        match r {
            Ok(bytes) => base32(bytes@) == text@,
            Err(_) => forall|b: Seq<u8>| #[trigger] base32(b) != text@,
        },
{
    BASE32_NOPAD.decode(text)
}

/// Lowers the ASCII capitals of a spelling.
pub(crate) fn lower_key(text: &mut [u8; 52])
    ensures
        final(text)@ == lower(old(text)@),
{
    let ghost start = text@;
    let mut i: usize = 0;
    while i < 52
        invariant
            i <= 52,
            text@.len() == 52,
            start.len() == 52,
            forall|j: int| 0 <= j < i ==> text@[j] == lower_byte(start[j]),
            forall|j: int| i <= j < 52 ==> text@[j] == start[j],
        decreases 52 - i,
    {
        let b: u8 = text[i];
        if 65 <= b && b <= 90 {
            text[i] = b + 32;
        }
        i += 1;
    }
    assert(text@ =~= lower(start));
}

/// The canonical spelling of a 32-byte key.
pub(crate) fn spell_key(key: &[u8; 32]) -> (r: [u8; 52])
    ensures
        r@ == spelling(key@),
{
    let mut text: [u8; 52] = [0u8;52];
    encode_key(key, &mut text);
    lower_key(&mut text);
    text
}

} // verus!
