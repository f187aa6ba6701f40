//! Streaming decoder from raw bytes to characters.
//!
//! [`Chars`] consumes a byte sequence and hands out one decoded character at
//! a time, following the standard variable-width multi-byte text encoding:
//! the leading byte announces how many continuation bytes follow (0 to 3),
//! each continuation byte must match the fixed `10xxxxxx` bit pattern, and
//! the accumulated codepoint must be a valid Unicode scalar.  A malformed
//! sequence is surfaced as a [`BadUnicode`] value carrying the partially
//! accumulated codepoint; running out of bytes mid-sequence counts as plain
//! exhaustion, not as an error.

use vstd::prelude::*;
use vstd::utf8::{
    continuation_bits, decode_first_codepoint, encode_scalar, is_continuation_byte,
    is_leading_byte_width_1, is_leading_byte_width_2, is_leading_byte_width_3,
    is_leading_byte_width_4, leading_bits_width_1, leading_bits_width_2, leading_bits_width_3,
    leading_bits_width_4, length_of_first_codepoint,
    valid_leading_and_continuation_bytes_first_codepoint,
};

verus! {

/// Invalid unicode codepoint found while decoding [`Chars`].
#[derive(Clone, Copy, Debug, PartialEq, Eq, Hash, Structural)]
pub struct BadUnicode(pub u32);

/// True when a `u32` names a Unicode scalar value, i.e. a value some `char`
/// carries: anything up to `0x10FFFF` except the surrogate range.
pub open spec fn is_unicode_scalar(v: u32) -> bool {
    v < 0xD800 || (0xE000 <= v && v <= 0x10FFFF)
}

/// Relies on `char::from_u32`: it returns `Some` exactly on Unicode scalar
/// values (everything up to `0x10FFFF` except surrogates), and the returned
/// `char` has the given value.
pub assume_specification[ char::from_u32 ](v: u32) -> (r: Option<char>)
    ensures
        r is Some <==> is_unicode_scalar(v),
        r matches Some(c) ==> c as u32 == v,
;

/// Number of bytes in the encoding announced by a leading byte,
/// or 0 when the byte is not a valid leading byte.
pub open spec fn lead_width(b: u8) -> int {
    if is_leading_byte_width_1(b) {
        1
    } else if is_leading_byte_width_2(b) {
        2
    } else if is_leading_byte_width_3(b) {
        3
    } else if is_leading_byte_width_4(b) {
        4
    } else {
        0
    }
}

/// Data bits carried by a leading byte.
pub open spec fn lead_bits(b: u8) -> u32 {
    if is_leading_byte_width_1(b) {
        leading_bits_width_1(b)
    } else if is_leading_byte_width_2(b) {
        leading_bits_width_2(b)
    } else if is_leading_byte_width_3(b) {
        leading_bits_width_3(b)
    } else {
        leading_bits_width_4(b)
    }
}

/// Outcome of accumulating a fully decoded codepoint `v`:
/// the character itself, or a failure when `v` is no Unicode scalar.
pub open spec fn finish_decode(v: u32) -> Option<Result<char, BadUnicode>> {
    if is_unicode_scalar(v) {
        Some(Ok(v as char))
    } else {
        Some(Err(BadUnicode(v)))
    }
}

/// Outcome of scanning continuation bytes `rem[j..w]` with `acc` already
/// accumulated: the decoded character, a [`BadUnicode`] failure at the first
/// continuation byte that breaks the `10xxxxxx` pattern (carrying the value
/// accumulated before that byte), or `None` when the bytes run out first.
pub open spec fn scan_continuations(
    rem: Seq<u8>,
    acc: u32,
    j: int,
    w: int,
) -> Option<Result<char, BadUnicode>>
    decreases w - j,
{
    if j >= w {
        finish_decode(acc)
    } else if rem.len() <= j {
        None
    } else if !is_continuation_byte(rem[j]) {
        Some(Err(BadUnicode(acc)))
    } else {
        scan_continuations(rem, (acc << 6) | continuation_bits(rem[j]), j + 1, w)
    }
}

/// Bytes consumed by the scan of `scan_continuations`: the whole width on a
/// full match, everything on exhaustion, and up to and including the first
/// malformed continuation byte otherwise.
pub open spec fn scan_consumed(rem: Seq<u8>, j: int, w: int) -> int
    decreases w - j,
{
    if j >= w {
        w
    } else if rem.len() <= j {
        rem.len() as int
    } else if !is_continuation_byte(rem[j]) {
        j + 1
    } else {
        scan_consumed(rem, j + 1, w)
    }
}

/// What one decoding step yields on the byte sequence `rem`:
/// `None` at exhaustion (including a truncated multi-byte sequence),
/// `Some(Ok(c))` for a complete well-formed character, and
/// `Some(Err(..))` for a malformed sequence.
pub open spec fn decoded_first(rem: Seq<u8>) -> Option<Result<char, BadUnicode>> {
    if rem.len() == 0 {
        None
    } else if lead_width(rem[0]) == 0 {
        Some(Err(BadUnicode(rem[0] as u32)))
    } else {
        scan_continuations(rem, lead_bits(rem[0]), 1, lead_width(rem[0]))
    }
}

/// The bytes left over after one decoding step on `rem`.
pub open spec fn rest_after_first(rem: Seq<u8>) -> Seq<u8> {
    if rem.len() == 0 {
        rem
    } else if lead_width(rem[0]) == 0 {
        rem.skip(1)
    } else {
        rem.skip(scan_consumed(rem, 1, lead_width(rem[0])))
    }
}

/// Decodes a byte sequence into characters, one at a time.
///
/// This is a lazy, single-pass, non-restartable source: each call of
/// [`Chars::next`] consumes exactly the bytes needed for one character.
#[derive(Clone, Debug)]
pub struct Chars {
    bytes: Vec<u8>,
    pos: usize,
}

impl Chars {
    /// The bytes not yet consumed.
    pub closed spec fn remaining(self) -> Seq<u8> {
        self.bytes@.skip(self.pos as int)
    }

    pub closed spec fn wf(self) -> bool {
        self.pos <= self.bytes@.len()
    }

    /// A decoder over the given bytes.
    pub fn new(bytes: Vec<u8>) -> (r: Chars)
        ensures
            r.wf(),
            r.remaining() == bytes@,
    {
        let r = Chars { bytes, pos: 0 };
        proof {
            assert(r.remaining() =~= r.bytes@);
        }
        r
    }

    /// Appends further raw bytes behind the ones not yet consumed.
    pub fn feed(&mut self, more: &mut Vec<u8>)
        requires
            old(self).wf(),
        ensures
            final(self).wf(),
            final(self).remaining() == old(self).remaining() + old(more)@,
            final(more)@.len() == 0,
    {
        self.bytes.append(more);
        proof {
            assert(self.remaining() =~= old(self).remaining() + old(more)@);
        }
    }

    /// Decodes the next character.
    ///
    /// Exhaustion (`None`) covers both a clean end of the bytes and a
    /// multi-byte sequence truncated by the end of the bytes; a malformed
    /// sequence comes back as `Err` with the partially accumulated
    /// codepoint value.
    pub fn next(&mut self) -> (r: Option<Result<char, BadUnicode>>)
        requires
            old(self).wf(),
        ensures
            final(self).wf(),
            r == decoded_first(old(self).remaining()),
            final(self).remaining() == rest_after_first(old(self).remaining()),
    {
        let ghost rem = self.remaining();
        let ghost p0 = self.pos as int;
        proof {
            assert(forall|i: int| 0 <= i < rem.len() ==> rem[i] == self.bytes@[p0 + i]);
        }
        if self.pos >= self.bytes.len() {
            proof {
                assert(rem.len() == 0);
                assert(self.remaining() =~= rest_after_first(rem));
            }
            return None;
        }
        let start = self.bytes[self.pos];
        self.pos = self.pos + 1;
        proof {
            assert(rem[0] == start);
        }
        let (mut out, count): (u32, usize) = if start & 0x80 == 0x00 {
            proof {
                assert(is_leading_byte_width_1(start) && (start & 0x7F) == start) by (bit_vector)
                    requires
                        start & 0x80 == 0x00,
                ;
            }
            (start as u32, 0)
        } else if start & 0xe0 == 0xc0 {
            proof {
                assert(!is_leading_byte_width_1(start) && is_leading_byte_width_2(start))
                    by (bit_vector)
                    requires
                        start & 0xe0 == 0xc0,
                ;
            }
            ((start & 0x1f) as u32, 1)
        } else if start & 0xf0 == 0xe0 {
            proof {
                assert(!is_leading_byte_width_1(start) && !is_leading_byte_width_2(start)
                    && is_leading_byte_width_3(start)) by (bit_vector)
                    requires
                        start & 0xf0 == 0xe0,
                ;
            }
            ((start & 0x0f) as u32, 2)
        } else if start & 0xf8 == 0xf0 {
            proof {
                assert(!is_leading_byte_width_1(start) && !is_leading_byte_width_2(start)
                    && !is_leading_byte_width_3(start) && is_leading_byte_width_4(start))
                    by (bit_vector)
                    requires
                        start & 0xf8 == 0xf0,
                ;
            }
            ((start & 0x07) as u32, 3)
        } else {
            proof {
                assert(!is_leading_byte_width_1(start) && !is_leading_byte_width_2(start)
                    && !is_leading_byte_width_3(start) && !is_leading_byte_width_4(start))
                    by (bit_vector)
                    requires
                        start & 0x80 != 0x00 && start & 0xe0 != 0xc0 && start & 0xf0 != 0xe0
                            && start & 0xf8 != 0xf0,
                ;
                assert(self.remaining() =~= rest_after_first(rem));
            }
            return Some(Err(BadUnicode(start as u32)));
        };
        let ghost w = lead_width(rem[0]);
        proof {
            assert(w == count + 1);
            assert(out == lead_bits(rem[0]));
        }
        let mut taken: usize = 0;
        while taken < count
            invariant
                taken <= count,
                count <= 3,
                rem.len() >= 1,
                w == lead_width(rem[0]),
                w == count + 1,
                rem == old(self).remaining(),
                old(self).wf(),
                self.bytes@ == old(self).bytes@,
                p0 == old(self).pos as int,
                rem.len() == self.bytes@.len() - p0,
                forall|i: int| 0 <= i < rem.len() ==> rem[i] == self.bytes@[p0 + i],
                self.pos as int == p0 + 1 + taken as int,
                1 + taken as int <= rem.len(),
                scan_continuations(rem, lead_bits(rem[0]), 1, w) == scan_continuations(
                    rem,
                    out,
                    1 + taken as int,
                    w,
                ),
                scan_consumed(rem, 1, w) == scan_consumed(rem, 1 + taken as int, w),
            decreases count - taken,
        {
            let ghost j = 1 + taken as int;
            if self.pos >= self.bytes.len() {
                // the byte stream ended inside a multi-byte sequence
                proof {
                    assert(rem.len() <= j);
                    assert(rem.len() == j);
                    assert(scan_continuations(rem, out, j, w) is None);
                    assert(scan_consumed(rem, j, w) == rem.len());
                    assert(self.remaining() =~= rest_after_first(rem));
                }
                return None;
            }
            let cont = self.bytes[self.pos];
            self.pos = self.pos + 1;
            proof {
                assert(j < rem.len());
                assert(rem[j] == cont);
            }
            if cont & 0xc0 != 0x80 {
                proof {
                    assert(!is_continuation_byte(cont)) by (bit_vector)
                        requires
                            cont & 0xc0 != 0x80,
                    ;
                    assert(scan_consumed(rem, j, w) == j + 1);
                    assert(self.remaining() =~= rest_after_first(rem));
                }
                return Some(Err(BadUnicode(out)));
            }
            proof {
                assert(is_continuation_byte(cont)) by (bit_vector)
                    requires
                        cont & 0xc0 == 0x80,
                ;
                assert(((out << 6) | (cont & 0x3f) as u32) == (out << 6) | continuation_bits(cont));
            }
            out = (out << 6) | (cont & 0x3f) as u32;
            taken = taken + 1;
        }
        proof {
            assert(scan_continuations(rem, out, 1 + taken as int, w) == finish_decode(out));
            assert(scan_consumed(rem, 1 + taken as int, w) == w);
            assert(self.remaining() =~= rest_after_first(rem));
        }
        match char::from_u32(out) {
            Some(c) => {
                proof {
                    vstd::utf8::char_u32_cast(c, out);
                }
                Some(Ok(c))
            },
            None => Some(Err(BadUnicode(out))),
        }
    }
}

/// The multi-byte form of one character.
pub fn encode_char(c: char) -> (r: Vec<u8>)
    ensures
        r@ == encode_scalar(c as u32),
{
    proof {
        vstd::utf8::char_is_scalar(c);
    }
    let v = c as u32;
    let mut r: Vec<u8> = Vec::new();
    if v <= 0x7F {
        r.push((v & 0x7F) as u8);
    } else if v <= 0x7FF {
        r.push(0xC0 | ((v >> 6) & 0x1F) as u8);
        r.push(0x80 | (v & 0x3F) as u8);
    } else if v <= 0xFFFF {
        r.push(0xE0 | ((v >> 12) & 0x0F) as u8);
        r.push(0x80 | ((v >> 6) & 0x3F) as u8);
        r.push(0x80 | (v & 0x3F) as u8);
    } else {
        r.push(0xF0 | ((v >> 18) & 0x7) as u8);
        r.push(0x80 | ((v >> 12) & 0x3F) as u8);
        r.push(0x80 | ((v >> 6) & 0x3F) as u8);
        r.push(0x80 | (v & 0x3F) as u8);
    }
    proof {
        assert(r@ =~= encode_scalar(c as u32));
    }
    r
}

/// Scanning a byte run that ends before the announced width, with every
/// present continuation byte well-formed, is exhaustion.
proof fn lemma_scan_runs_out(rem: Seq<u8>, acc: u32, j: int, w: int)
    requires
        1 <= j,
        j <= rem.len(),
        rem.len() < w,
        forall|k: int| j <= k < rem.len() ==> is_continuation_byte(#[trigger] rem[k]),
    ensures
        scan_continuations(rem, acc, j, w) is None,
        scan_consumed(rem, j, w) == rem.len(),
    decreases w - j,
{
    if rem.len() <= j {
    } else {
        lemma_scan_runs_out(rem, (acc << 6) | continuation_bits(rem[j]), j + 1, w);
    }
}

/// When the bytes open with a well-formed leading byte and its full count of
/// well-formed continuation bytes, one decoding step accumulates exactly the
/// codepoint those bytes spell and consumes exactly the encoding's width.
pub proof fn lemma_decoded_first_codepoint(rem: Seq<u8>)
    requires
        valid_leading_and_continuation_bytes_first_codepoint(rem),
    ensures
        decoded_first(rem) == finish_decode(decode_first_codepoint(rem)),
        rest_after_first(rem) == rem.skip(length_of_first_codepoint(rem)),
{
    let b0 = rem[0];
    let l = lead_bits(b0);
    if is_leading_byte_width_1(b0) {
        assert(scan_continuations(rem, l, 1, 1) == finish_decode(l));
    } else if is_leading_byte_width_2(b0) {
        let c1 = continuation_bits(rem[1]);
        assert(scan_continuations(rem, l, 1, 2) == scan_continuations(rem, (l << 6) | c1, 2, 2));
        assert(scan_consumed(rem, 1, 2) == scan_consumed(rem, 2, 2));
        assert(scan_consumed(rem, 2, 2) == 2);
    } else if is_leading_byte_width_3(b0) {
        let b1 = rem[1];
        let b2 = rem[2];
        let c1 = continuation_bits(b1);
        let c2 = continuation_bits(b2);
        assert(scan_continuations(rem, l, 1, 3) == scan_continuations(rem, (l << 6) | c1, 2, 3));
        assert(scan_continuations(rem, (l << 6) | c1, 2, 3) == scan_continuations(
            rem,
            (((l << 6) | c1) << 6) | c2,
            3,
            3,
        ));
        assert(scan_consumed(rem, 1, 3) == scan_consumed(rem, 2, 3));
        assert(scan_consumed(rem, 2, 3) == scan_consumed(rem, 3, 3));
        assert(scan_consumed(rem, 3, 3) == 3);
        assert((((l << 6) | ((b1 & 0x3f) as u32)) << 6) | ((b2 & 0x3f) as u32) == (l << 12) | (((b1
            & 0x3f) as u32) << 6) | ((b2 & 0x3f) as u32)) by (bit_vector);
    } else {
        let b1 = rem[1];
        let b2 = rem[2];
        let b3 = rem[3];
        let c1 = continuation_bits(b1);
        let c2 = continuation_bits(b2);
        let c3 = continuation_bits(b3);
        assert(scan_continuations(rem, l, 1, 4) == scan_continuations(rem, (l << 6) | c1, 2, 4));
        assert(scan_continuations(rem, (l << 6) | c1, 2, 4) == scan_continuations(
            rem,
            (((l << 6) | c1) << 6) | c2,
            3,
            4,
        ));
        assert(scan_continuations(rem, (((l << 6) | c1) << 6) | c2, 3, 4) == scan_continuations(
            rem,
            ((((l << 6) | c1) << 6 | c2) << 6) | c3,
            4,
            4,
        ));
        assert(scan_consumed(rem, 1, 4) == scan_consumed(rem, 2, 4));
        assert(scan_consumed(rem, 2, 4) == scan_consumed(rem, 3, 4));
        assert(scan_consumed(rem, 3, 4) == scan_consumed(rem, 4, 4));
        assert(scan_consumed(rem, 4, 4) == 4);
        assert(((((l << 6) | ((b1 & 0x3f) as u32)) << 6 | ((b2 & 0x3f) as u32)) << 6) | ((b3
            & 0x3f) as u32) == (l << 18) | (((b1 & 0x3f) as u32) << 12) | (((b2
            & 0x3f) as u32) << 6) | ((b3 & 0x3f) as u32)) by (bit_vector);
    }
}

/// Law: decoding the multi-byte form of any character yields that character
/// back, with nothing left over.
pub proof fn lemma_encode_decode_char(c: char)
    ensures
        decoded_first(encode_scalar(c as u32)) == Some(Ok::<char, BadUnicode>(c)),
        rest_after_first(encode_scalar(c as u32)).len() == 0,
{
    vstd::utf8::char_is_scalar(c);
    let s = c as u32;
    let bytes = encode_scalar(s);
    assert(vstd::utf8::encode_utf8(seq![c]) =~= bytes) by {
        assert(seq![c].drop_first() =~= Seq::<char>::empty());
        assert(vstd::utf8::encode_utf8(Seq::<char>::empty()) =~= Seq::<u8>::empty());
    }
    vstd::utf8::encode_utf8_first_scalar(seq![c]);
    assert(vstd::utf8::valid_first_scalar(bytes));
    assert(decode_first_codepoint(bytes) == s);
    lemma_decoded_first_codepoint(bytes);
    assert(length_of_first_codepoint(bytes) == bytes.len());
    vstd::utf8::char_u32_cast(c, s);
    assert(finish_decode(s) == Some(Ok::<char, BadUnicode>(c)));
}

/// Law: any truncated multi-byte form followed by the end of the bytes is
/// exhaustion, not a decoded character and not a failure.
pub proof fn lemma_truncated_encoding_is_exhaustion(c: char, n: int)
    requires
        0 <= n < encode_scalar(c as u32).len(),
    ensures
        decoded_first(encode_scalar(c as u32).take(n)) is None,
{
    vstd::utf8::char_is_scalar(c);
    let s = c as u32;
    let bytes = encode_scalar(s);
    let prefix = bytes.take(n);
    if n == 0 {
        assert(prefix.len() == 0);
    } else {
        assert(vstd::utf8::encode_utf8(seq![c]) =~= bytes) by {
            assert(seq![c].drop_first() =~= Seq::<char>::empty());
            assert(vstd::utf8::encode_utf8(Seq::<char>::empty()) =~= Seq::<u8>::empty());
        }
        vstd::utf8::encode_utf8_first_scalar(seq![c]);
        assert(vstd::utf8::valid_first_scalar(bytes));
        assert(prefix[0] == bytes[0]);
        assert(lead_width(prefix[0]) == bytes.len());
        assert(forall|k: int| 1 <= k < prefix.len() ==> is_continuation_byte(#[trigger] prefix[k]));
        lemma_scan_runs_out(prefix, lead_bits(prefix[0]), 1, lead_width(prefix[0]));
    }
}

/// The scan consumes at least one byte and never more than there are.
proof fn lemma_scan_consumed_range(rem: Seq<u8>, j: int, w: int)
    requires
        1 <= j <= w,
        j <= rem.len(),
    ensures
        1 <= scan_consumed(rem, j, w) <= rem.len(),
    decreases w - j,
{
    if j >= w {
    } else if rem.len() <= j {
    } else if !is_continuation_byte(rem[j]) {
    } else {
        lemma_scan_consumed_range(rem, j + 1, w);
    }
}

/// One decoding step on a non-empty byte sequence always consumes at
/// least one byte.
pub proof fn lemma_decode_consumes(rem: Seq<u8>)
    requires
        rem.len() > 0,
    ensures
        rest_after_first(rem).len() < rem.len(),
{
    if lead_width(rem[0]) == 0 {
    } else {
        lemma_scan_consumed_range(rem, 1, lead_width(rem[0]));
    }
}

} // verus!
