//! Textual encodings used for composite storage keys: lowercase
//! hexadecimal for identity bytes and decimal for sequence numbers.
use vstd::prelude::*;

verus! {

/// Digit `n` as a character: `0`..`9`, then lowercase `a`..`f`.
pub open spec fn digit_char(n: u8) -> char
    recommends
        n < 16,
{
    if n < 10 {
        ((n + 48) as u8) as char
    } else {
        ((n + 87) as u8) as char
    }
}

/// One byte as two hex digits, high nibble first.
pub open spec fn hex_of_byte(b: u8) -> Seq<char> {
    seq![digit_char(b / 16), digit_char(b % 16)]
}

/// A byte string as lowercase hex, two digits per byte, in order.
pub open spec fn hex_of(s: Seq<u8>) -> Seq<char>
    decreases s.len(),
{
    if s.len() == 0 {
        Seq::empty()
    } else {
        hex_of_byte(s[0]) + hex_of(s.drop_first())
    }
}

/// A natural number in base ten, most significant digit first, no
/// leading zeros (zero itself is the single digit `0`).
pub open spec fn decimal_of(n: nat) -> Seq<char>
    decreases n,
{
    if n < 10 {
        seq![digit_char(n as u8)]
    } else {
        decimal_of(n / 10) + seq![digit_char((n % 10) as u8)]
    }
}

/// Distinct digits render as distinct characters.
pub proof fn lemma_digit_char_injective(a: u8, b: u8)
    requires
        a < 16,
        b < 16,
        digit_char(a) == digit_char(b),
    ensures
        a == b,
{
}

/// Hex doubles the length: two characters for every byte.
pub proof fn lemma_hex_of_len(s: Seq<u8>)
    ensures
        hex_of(s).len() == 2 * s.len(),
    decreases s.len(),
{
    if s.len() > 0 {
        lemma_hex_of_len(s.drop_first());
    }
}

/// Equal hex renderings of equally long byte strings come from equal
/// byte strings: hex encoding loses nothing.
pub proof fn lemma_hex_of_injective(s1: Seq<u8>, s2: Seq<u8>)
    requires
        s1.len() == s2.len(),
        hex_of(s1) == hex_of(s2),
    ensures
        s1 == s2,
    decreases s1.len(),
{
    if s1.len() > 0 {
        lemma_hex_of_len(s1.drop_first());
        lemma_hex_of_len(s2.drop_first());
        assert(hex_of(s1)[0] == digit_char(s1[0] / 16));
        assert(hex_of(s1)[1] == digit_char(s1[0] % 16));
        assert(hex_of(s2)[0] == digit_char(s2[0] / 16));
        assert(hex_of(s2)[1] == digit_char(s2[0] % 16));
        lemma_digit_char_injective(s1[0] / 16, s2[0] / 16);
        lemma_digit_char_injective(s1[0] % 16, s2[0] % 16);
        assert(s1[0] == s2[0]);
        assert(hex_of(s1.drop_first()) =~= hex_of(s1).subrange(2, hex_of(s1).len() as int));
        assert(hex_of(s2.drop_first()) =~= hex_of(s2).subrange(2, hex_of(s2).len() as int));
        lemma_hex_of_injective(s1.drop_first(), s2.drop_first());
        assert(forall|k: int| 1 <= k < s1.len() ==> s1[k] == s1.drop_first()[k - 1]);
        assert(forall|k: int| 1 <= k < s2.len() ==> s2[k] == s2.drop_first()[k - 1]);
        assert(s1 =~= s2);
    } else {
        assert(s1 =~= s2);
    }
}

/// A decimal rendering is never empty.
pub proof fn lemma_decimal_of_len(n: nat)
    ensures
        decimal_of(n).len() >= 1,
    decreases n,
{
    if n >= 10 {
        lemma_decimal_of_len(n / 10);
    }
}

/// Equal decimal renderings come from equal numbers: with no leading
/// zeros the rendering loses nothing.
pub proof fn lemma_decimal_of_injective(n1: nat, n2: nat)
    requires
        decimal_of(n1) == decimal_of(n2),
    ensures
        n1 == n2,
    decreases n1,
{
    if n1 < 10 && n2 < 10 {
        assert(decimal_of(n1)[0] == digit_char(n1 as u8));
        assert(decimal_of(n2)[0] == digit_char(n2 as u8));
        lemma_digit_char_injective(n1 as u8, n2 as u8);
    } else if n1 < 10 && n2 >= 10 {
        lemma_decimal_of_len(n2 / 10);
        assert(decimal_of(n2).len() >= 2);
    } else if n1 >= 10 && n2 < 10 {
        lemma_decimal_of_len(n1 / 10);
        assert(decimal_of(n1).len() >= 2);
    } else {
        assert(decimal_of(n1).last() == digit_char((n1 % 10) as u8));
        assert(decimal_of(n2).last() == digit_char((n2 % 10) as u8));
        lemma_digit_char_injective((n1 % 10) as u8, (n2 % 10) as u8);
        assert(decimal_of(n1).drop_last() =~= decimal_of(n1 / 10));
        assert(decimal_of(n2).drop_last() =~= decimal_of(n2 / 10));
        lemma_decimal_of_injective(n1 / 10, n2 / 10);
    }
}

/// Relies on hex::encode: each input byte becomes two lowercase hex
/// digits, high nibble first, in input order.
#[verifier::external_body]
pub(crate) fn hex_encode(bytes: &[u8]) -> (r: String)
    ensures
        r@ == hex_of(bytes@),
{
    hex::encode(bytes)
}

/// Relies on u16's `Display` (through `ToString`): the number in base
/// ten with no sign, no separators and no leading zeros.
#[verifier::external_body]
pub(crate) fn u16_to_decimal(n: u16) -> (r: String)
    ensures
        r@ == decimal_of(n as nat),
{
    n.to_string()
}

} // verus!
