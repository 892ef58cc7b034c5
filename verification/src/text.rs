//! Text from bytes, and the text of numbers.

use vstd::prelude::*;
use vstd::utf8::*;

verus! {

/// `String::from_utf8`: the text whose UTF-8 encoding is `bytes`, and nothing
/// where `bytes` are not valid UTF-8.
#[verifier::external_body]
pub(crate) fn string_from_utf8(bytes: Vec<u8>) -> (r: Option<String>)
    ensures
        r is Some <==> valid_utf8(bytes@),
        r matches Some(s) ==> s@ == decode_utf8(bytes@),
{
    String::from_utf8(bytes).ok()
}

/// Whether every byte is an ASCII character.
pub open spec fn is_ascii_bytes(bytes: Seq<u8>) -> bool {
    forall|i: int| 0 <= i < bytes.len() ==> (#[trigger] bytes[i]) < 128
}

/// ASCII bytes are valid UTF-8.
pub proof fn lemma_ascii_valid_utf8(bytes: Seq<u8>)
    requires
        is_ascii_bytes(bytes),
    ensures
        valid_utf8(bytes),
{
    assert(bytes.subrange(0, 0) =~= Seq::<u8>::empty());
    assert(partial_valid_utf8(bytes, 0));
    partial_valid_utf8_extend_ascii_block(bytes, 0, bytes.len() as int);
    assert(bytes.subrange(0, bytes.len() as int) =~= bytes);
}

/// The ASCII character of a digit below sixteen, in lower case.
pub open spec fn digit_byte(d: int) -> u8 {
    if d < 10 {
        (0x30 + d) as u8
    } else {
        (0x61 + d - 10) as u8
    }
}

/// The digits of `n`, in base sixteen where `hex` is set and in base ten
/// where it is not, most significant first, with no leading zero; one zero
/// for zero.
pub open spec fn digits(n: nat, hex: bool) -> Seq<u8>
    decreases n,
{
    if hex {
        if n < 16 {
            seq![digit_byte(n as int)]
        } else {
            digits(n / 16, hex) + seq![digit_byte((n % 16) as int)]
        }
    } else {
        if n < 10 {
            seq![digit_byte(n as int)]
        } else {
            digits(n / 10, hex) + seq![digit_byte((n % 10) as int)]
        }
    }
}

/// Digits are ASCII characters, and there is at least one.
pub proof fn lemma_digits_ascii(n: nat, hex: bool)
    ensures
        is_ascii_bytes(digits(n, hex)),
        digits(n, hex).len() >= 1,
    decreases n,
{
    if hex {
        if n >= 16 {
            lemma_digits_ascii(n / 16, hex);
        }
    } else {
        if n >= 10 {
            lemma_digits_ascii(n / 10, hex);
        }
    }
}

/// The ASCII character of a digit below sixteen.
fn digit(d: u16) -> (b: u8)
    requires
        d < 16,
    ensures
        b == digit_byte(d as int),
{
    if d < 10 {
        0x30 + d as u8
    } else {
        0x61 + (d - 10) as u8
    }
}

/// Appends the digits of `n`, in base sixteen where `hex` is set and in base
/// ten where it is not.
pub fn put_digits(out: &mut Vec<u8>, n: u16, hex: bool)
    ensures
        final(out)@ == old(out)@ + digits(n as nat, hex),
{
    let base: u16 = if hex { 16 } else { 10 };
    let mut stack: Vec<u8> = Vec::new();
    let mut rest = n;
    while rest >= base
        invariant
            base == if hex { 16u16 } else { 10u16 },
            digits(n as nat, hex) == digits(rest as nat, hex) + stack@.reverse(),
        decreases rest,
    {
        let d = rest % base;
        let ghost before = stack@;
        stack.push(digit(d));
        proof {
            assert(stack@.reverse() =~= seq![digit_byte(d as int)] + before.reverse());
            assert(digits(rest as nat, hex) + before.reverse() =~= digits(
                (rest / base) as nat,
                hex,
            ) + stack@.reverse());
        }
        rest = rest / base;
    }
    out.push(digit(rest));
    let ghost lead = out@;
    let mut i = stack.len();
    while i > 0
        invariant
            i <= stack@.len(),
            out@ == lead + stack@.reverse().take(stack@.len() - i),
        decreases i,
    {
        i = i - 1;
        out.push(stack[i]);
        proof {
            let r = stack@.reverse();
            assert(r.take(stack@.len() - i) =~= r.take(stack@.len() - i - 1).push(stack@[i as int]));
        }
    }
    proof {
        assert(stack@.reverse().take(stack@.len() as int) =~= stack@.reverse());
        assert(out@ =~= old(out)@ + (seq![digit_byte(rest as int)] + stack@.reverse()));
    }
}

} // verus!
