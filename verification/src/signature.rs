//! The compact working-memory fingerprint shown by the cockpit: the first
//! two 32-bit words of the packed bipolar working-memory vector, written
//! big-endian as 16 lower-case hex digits.
use vstd::prelude::*;

verus! {

/// `String::push` (std): appends the character `ch` to the end of `s`,
/// leaving the characters already in `s` as they were.
pub assume_specification[ String::push ](s: &mut String, ch: char)
    ensures
        final(s)@ == old(s)@.push(ch),
;

/// The lower-case hex digit of `n` (`0 <= n < 16`).
pub open spec fn hex_digit(n: int) -> char {
    if n < 10 {
        (48 + n) as char
    } else {
        (87 + n) as char
    }
}

/// Nibble `k` of `w`, counted from the most significant one (`0 <= k < 8`).
pub open spec fn nibble(w: u32, k: int) -> int {
    ((w >> ((28 - 4 * k) as u32)) & 0xfu32) as int
}

/// The 16 hex digits of `w0` followed by those of `w1`, most significant
/// digit first.
pub open spec fn spec_signature_hex(w0: u32, w1: u32) -> Seq<char> {
    Seq::new(
        16,
        |i: int|
            if i < 8 {
                hex_digit(nibble(w0, i))
            } else {
                hex_digit(nibble(w1, i - 8))
            },
    )
}

fn hex_char(n: u32) -> (c: char)
    requires
        n < 16,
    ensures
        c == hex_digit(n as int),
{
    if n < 10 {
        ((48 + n) as u8) as char
    } else {
        ((87 + n) as u8) as char
    }
}

/// Appends the 8 hex digits of `w`, most significant first.
fn push_word_hex(out: &mut String, w: u32)
    ensures
        final(out)@ == old(out)@ + Seq::new(8, |k: int| hex_digit(nibble(w, k))),
{
    let mut k: u32 = 0;
    while k < 8
        invariant
            k <= 8,
            out@ == old(out)@ + Seq::new(k as nat, |j: int| hex_digit(nibble(w, j))),
        decreases 8 - k,
    {
        let sh: u32 = 28 - 4 * k;
        let n = (w >> sh) & 0xfu32;
        assert(n < 16) by (bit_vector)
            requires
                n == (w >> sh) & 0xfu32,
        ;
        assert(n as int == nibble(w, k as int));
        out.push(hex_char(n));
        proof {
            assert(out@ =~= old(out)@ + Seq::new((k + 1) as nat, |j: int| hex_digit(nibble(w, j))));
        }
        k = k + 1;
    }
}

/// The 16-character hex fingerprint of the working-memory words `w0`, `w1`.
pub fn signature_hex(w0: u32, w1: u32) -> (s: String)
    ensures
        s@ == spec_signature_hex(w0, w1),
{
    let mut out = String::new();
    push_word_hex(&mut out, w0);
    push_word_hex(&mut out, w1);
    assert(out@ =~= spec_signature_hex(w0, w1));
    out
}

} // verus!
