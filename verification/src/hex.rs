//! Lowercase hexadecimal text of a byte string.

use vstd::prelude::*;

verus! {

/// The sixteen lowercase hex digits, in order of their value.
pub open spec fn hex_digits() -> Seq<char> {
    seq!['0', '1', '2', '3', '4', '5', '6', '7', '8', '9', 'a', 'b', 'c', 'd', 'e', 'f']
}

/// The digit that stands for `nibble`, which is below sixteen.
pub open spec fn hex_digit(nibble: int) -> char
    recommends
        0 <= nibble < 16,
{
    hex_digits()[nibble]
}

/// The hex text of `bytes`: two digits for each byte, the high half first.
pub open spec fn lower_hex(bytes: Seq<u8>) -> Seq<char> {
    Seq::new(
        2 * bytes.len(),
        |i: int|
            if i % 2 == 0 {
                hex_digit(bytes[i / 2] as int / 16)
            } else {
                hex_digit(bytes[i / 2] as int % 16)
            },
    )
}

/// Two nibbles with the same digit are the same nibble.
pub proof fn lemma_hex_digit_injective(a: int, b: int)
    requires
        0 <= a < 16,
        0 <= b < 16,
        hex_digit(a) == hex_digit(b),
    ensures
        a == b,
{
}

/// No hex digit is a dot.
pub proof fn lemma_hex_digit_is_not_dot(nibble: int)
    requires
        0 <= nibble < 16,
    ensures
        hex_digit(nibble) != '.',
{
}

/// Every character of a hex text is a hex digit, so none is a dot.
pub proof fn lemma_lower_hex_has_no_dot(bytes: Seq<u8>, at: int)
    requires
        0 <= at < lower_hex(bytes).len(),
    ensures
        lower_hex(bytes)[at] != '.',
{
    let byte = bytes[at / 2] as int;
    if at % 2 == 0 {
        lemma_hex_digit_is_not_dot(byte / 16);
    } else {
        lemma_hex_digit_is_not_dot(byte % 16);
    }
}

/// Hex rendering loses nothing: two byte strings with the same hex text are
/// the same byte string.
pub proof fn lemma_lower_hex_injective(a: Seq<u8>, b: Seq<u8>)
    requires
        lower_hex(a) == lower_hex(b),
    ensures
        a == b,
{
    assert(2 * a.len() == lower_hex(a).len());
    assert(2 * b.len() == lower_hex(b).len());
    assert forall|i: int| 0 <= i < a.len() implies a[i] == b[i] by {
        let x = a[i] as int;
        let y = b[i] as int;
        assert((2 * i) / 2 == i && (2 * i) % 2 == 0);
        assert((2 * i + 1) / 2 == i && (2 * i + 1) % 2 == 1);
        assert(lower_hex(a)[2 * i] == hex_digit(x / 16));
        assert(lower_hex(b)[2 * i] == hex_digit(y / 16));
        assert(lower_hex(a)[2 * i + 1] == hex_digit(x % 16));
        assert(lower_hex(b)[2 * i + 1] == hex_digit(y % 16));
        lemma_hex_digit_injective(x / 16, y / 16);
        lemma_hex_digit_injective(x % 16, y % 16);
    }
    assert(a =~= b);
}

/// The one-character text of the digit for `nibble`.
fn digit_text(nibble: u8) -> (text: &'static str)
    requires
        nibble < 16,
    ensures
        text@ == seq![hex_digit(nibble as int)],
{
    let digits = "0123456789abcdef";
    proof {
        reveal_strlit("0123456789abcdef");
    }
    let at: usize = nibble as usize;
    let text = digits.substring_ascii(at, at + 1);
    assert(text@ =~= seq![hex_digit(nibble as int)]);
    text
}

/// Renders `bytes` as lowercase hex.
pub fn to_lower_hex(bytes: &[u8]) -> (text: String)
    ensures
        text@ == lower_hex(bytes@),
{
    let mut text = String::new();
    let mut i: usize = 0;
    while i < bytes.len()
        invariant
            i <= bytes.len(),
            text@ == lower_hex(bytes@.subrange(0, i as int)),
        decreases bytes.len() - i,
    {
        let byte: u8 = bytes[i];
        let ghost before = text@;
        text.append(digit_text(byte / 16));
        text.append(digit_text(byte % 16));
        proof {
            let done = bytes@.subrange(0, i as int);
            let next = bytes@.subrange(0, i as int + 1);
            assert(text@ == before + seq![hex_digit(byte as int / 16)] + seq![
                hex_digit(byte as int % 16),
            ]);
            assert forall|k: int| 0 <= k < 2 * next.len() implies text@[k] == lower_hex(next)[k] by {
                if k < 2 * done.len() {
                    assert(next[k / 2] == done[k / 2]);
                    assert(text@[k] == lower_hex(done)[k]);
                } else {
                    assert(k / 2 == i as int);
                    assert(next[k / 2] == byte);
                }
            }
            assert(text@ =~= lower_hex(next));
        }
        i = i + 1;
    }
    assert(bytes@.subrange(0, i as int) =~= bytes@);
    text
}

} // verus!
