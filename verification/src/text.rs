//! How identifiers and hashes are written out for a reader.

use vstd::prelude::*;

verus! {

/// The digits of `n` in base ten, as ASCII, without leading zeros.
pub open spec fn decimal(n: nat) -> Seq<u8>
    decreases n,
{
    if n < 10 {
        seq![(0x30 + n) as u8]
    } else {
        decimal(n / 10).push((0x30 + n % 10) as u8)
    }
}

/// The lower-case hexadecimal digit of a number below sixteen, as ASCII.
pub open spec fn hex_digit(n: u8) -> u8 {
    if n < 10 {
        (0x30 + n) as u8
    } else {
        (0x61 + n - 10) as u8
    }
}

/// Two lower-case hexadecimal digits for each byte, as ASCII.
pub open spec fn lower_hex(bytes: Seq<u8>) -> Seq<u8>
    decreases bytes.len(),
{
    if bytes.len() == 0 {
        Seq::empty()
    } else {
        lower_hex(bytes.drop_last()).push(hex_digit(bytes.last() / 16)).push(
            hex_digit(bytes.last() % 16),
        )
    }
}

/// Whether every byte is an ASCII character.
pub open spec fn is_ascii_bytes(bytes: Seq<u8>) -> bool {
    forall|k: int| 0 <= k < bytes.len() ==> bytes[k] < 0x80
}

/// The digits of a number are ASCII, and at least one.
pub proof fn lemma_decimal_ascii(n: nat)
    ensures
        is_ascii_bytes(decimal(n)),
        1 <= decimal(n).len(),
    decreases n,
{
    if n >= 10 {
        lemma_decimal_ascii(n / 10);
    }
}

/// Hexadecimal digits are ASCII, two for each byte.
pub proof fn lemma_lower_hex_ascii(bytes: Seq<u8>)
    ensures
        is_ascii_bytes(lower_hex(bytes)),
        lower_hex(bytes).len() == 2 * bytes.len(),
    decreases bytes.len(),
{
    if bytes.len() > 0 {
        lemma_lower_hex_ascii(bytes.drop_last());
    }
}

/// The digits of `n` in base ten, as ASCII.
pub fn decimal_digits(n: u16) -> (r: Vec<u8>)
    ensures
        r@ == decimal(n as nat),
{
    let mut digits: Vec<u8> = Vec::new();
    if n >= 10000 {
        digits.push(0x30 + (n / 10000) as u8);
    }
    if n >= 1000 {
        digits.push(0x30 + (n / 1000 % 10) as u8);
    }
    if n >= 100 {
        digits.push(0x30 + (n / 100 % 10) as u8);
    }
    if n >= 10 {
        digits.push(0x30 + (n / 10 % 10) as u8);
    }
    digits.push(0x30 + (n % 10) as u8);
    proof {
        reveal_with_fuel(decimal, 6);
        assert(digits@ =~= decimal(n as nat));
    }
    digits
}

/// Two lower-case hexadecimal digits for each byte, as ASCII.
pub fn hex_digits(bytes: &[u8]) -> (r: Vec<u8>)
    ensures
        r@ == lower_hex(bytes@),
{
    let mut out: Vec<u8> = Vec::new();
    let mut j: usize = 0;
    assert(bytes@.take(0) =~= Seq::empty());
    while j < bytes.len()
        invariant
            j <= bytes.len(),
            out@ == lower_hex(bytes@.take(j as int)),
        decreases bytes.len() - j,
    {
        assert(bytes@.take(j + 1).drop_last() =~= bytes@.take(j as int));
        let high = bytes[j] / 16;
        let low = bytes[j] % 16;
        out.push(if high < 10 { 0x30 + high } else { 0x61 + high - 10 });
        out.push(if low < 10 { 0x30 + low } else { 0x61 + low - 10 });
        j += 1;
    }
    assert(bytes@.take(j as int) =~= bytes@);
    out
}

/// `String::from_utf8` on ASCII bytes: one character for each byte, with
/// the byte as its code.
#[verifier::external_body]
pub(crate) fn ascii_string(bytes: Vec<u8>) -> (r: String)
    requires
        is_ascii_bytes(bytes@),
    ensures
        r@.len() == bytes@.len(),
        forall|k: int| 0 <= k < bytes@.len() ==> r@[k] as u32 == bytes@[k] as u32,
{
    String::from_utf8(bytes).unwrap()
}

/// The label of an identifier: `BID:` and its value in base ten.
pub open spec fn id_label(value: u16) -> Seq<u8> {
    seq![0x42u8, 0x49u8, 0x44u8, 0x3au8] + decimal(value as nat)
}

/// The label of a hash: `0x` and its bytes in lower-case hexadecimal.
pub open spec fn hash_label(bytes: Seq<u8>) -> Seq<u8> {
    seq![0x30u8, 0x78u8] + lower_hex(bytes)
}

/// The label of an identifier with value `value`, as ASCII.
pub fn id_label_bytes(value: u16) -> (r: Vec<u8>)
    ensures
        r@ == id_label(value),
        is_ascii_bytes(r@),
{
    let mut out: Vec<u8> = Vec::new();
    out.push(0x42);
    out.push(0x49);
    out.push(0x44);
    out.push(0x3a);
    let mut digits = decimal_digits(value);
    proof {
        lemma_decimal_ascii(value as nat);
    }
    out.append(&mut digits);
    assert(out@ =~= id_label(value));
    out
}

/// The label of a hash with bytes `bytes`, as ASCII.
pub fn hash_label_bytes(bytes: &[u8]) -> (r: Vec<u8>)
    ensures
        r@ == hash_label(bytes@),
        is_ascii_bytes(r@),
{
    let mut out: Vec<u8> = Vec::new();
    out.push(0x30);
    out.push(0x78);
    let mut digits = hex_digits(bytes);
    proof {
        lemma_lower_hex_ascii(bytes@);
    }
    out.append(&mut digits);
    assert(out@ =~= hash_label(bytes@));
    out
}

} // verus!
