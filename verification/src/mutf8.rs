//! The modified string encoding used by the tag format: UTF-8 with two
//! deviations. The NUL code point is stored as the two-byte overlong pair
//! `0xC0 0x80`, and code points above U+FFFF are stored as a UTF-16 surrogate
//! pair whose halves are each given a three-byte encoding (six bytes total).

use vstd::prelude::*;
use vstd::std_specs::iter::IteratorSpec;
use vstd::string::StringSliceAdditionalSpecFns;
use vstd::utf8::codepoint_width_2;
use vstd::utf8::codepoint_width_3;
use vstd::utf8::encode_scalar;
use vstd::utf8::encode_utf8;
use vstd::utf8::is_continuation_byte;
use vstd::utf8::valid_utf8;

verus! {

/// True when the value is the leading half of a surrogate pair.
pub open spec fn is_high_surrogate(v: u32) -> bool {
    0xD800 <= v <= 0xDBFF
}

/// True when the value is the trailing half of a surrogate pair.
pub open spec fn is_low_surrogate(v: u32) -> bool {
    0xDC00 <= v <= 0xDFFF
}

/// The length in bytes of the first encoded code point, assuming the bytes
/// begin with a well-formed encoding of one code point.
pub open spec fn m_first_len(b: Seq<u8>) -> int
    recommends
        m_first_valid(b),
{
    if b[0] < 0x80 {
        1
    } else if b[0] < 0xE0 {
        2
    } else if b.len() >= 3 && is_high_surrogate(codepoint_width_3(b[0], b[1], b[2])) {
        6
    } else {
        3
    }
}

/// True when the bytes begin with a well-formed encoding of one code point:
/// a plain ASCII byte other than NUL, the overlong NUL pair, a standard two-
/// or three-byte sequence, or a full six-byte surrogate pair. A lone
/// surrogate half, a standalone zero byte, an overlong form other than the
/// NUL pair, and a four-byte sequence are all rejected.
pub open spec fn m_first_valid(b: Seq<u8>) -> bool {
    if b.len() == 0 {
        false
    } else if 0x01 <= b[0] <= 0x7F {
        true
    } else if b[0] == 0xC0 {
        b.len() >= 2 && b[1] == 0x80
    } else if 0xC2 <= b[0] <= 0xDF {
        b.len() >= 2 && is_continuation_byte(b[1])
    } else if 0xE0 <= b[0] <= 0xEF {
        &&& b.len() >= 3
        &&& is_continuation_byte(b[1])
        &&& is_continuation_byte(b[2])
        &&& {
            let v = codepoint_width_3(b[0], b[1], b[2]);
            &&& v >= 0x800
            &&& !is_low_surrogate(v)
            &&& (is_high_surrogate(v) ==> b.len() >= 6 && b[3] == 0xED && 0xB0 <= b[4] <= 0xBF
                && is_continuation_byte(b[5]))
        }
    } else {
        false
    }
}

/// The first code point encoded in the bytes, assuming they begin with a
/// well-formed encoding of one code point.
pub open spec fn m_first_scalar(b: Seq<u8>) -> u32
    recommends
        m_first_valid(b),
{
    if b[0] < 0x80 {
        b[0] as u32
    } else if b[0] == 0xC0 {
        0
    } else if b[0] < 0xE0 {
        codepoint_width_2(b[0], b[1])
    } else {
        let v = codepoint_width_3(b[0], b[1], b[2]);
        if is_high_surrogate(v) {
            let lo = codepoint_width_3(b[3], b[4], b[5]);
            (0x10000 + (v - 0xD800) * 0x400 + (lo - 0xDC00)) as u32
        } else {
            v
        }
    }
}

/// True when the bytes are a well-formed modified-encoding text.
pub open spec fn valid_mutf8(b: Seq<u8>) -> bool
    decreases b.len(),
{
    if b.len() == 0 {
        true
    } else if m_first_valid(b) && 1 <= m_first_len(b) <= b.len() {
        valid_mutf8(b.skip(m_first_len(b)))
    } else {
        false
    }
}

/// The code points encoded in the bytes, assuming they are well-formed
/// modified-encoding text.
pub open spec fn mutf8_decode(b: Seq<u8>) -> Seq<char>
    recommends
        valid_mutf8(b),
    decreases b.len(),
{
    if b.len() == 0 {
        seq![]
    } else if m_first_valid(b) && 1 <= m_first_len(b) <= b.len() {
        seq![m_first_scalar(b) as char] + mutf8_decode(b.skip(m_first_len(b)))
    } else {
        seq![]
    }
}

/// The three-byte form holding the low 16 bits of a value; both surrogate
/// halves and ordinary three-byte code points use it.
pub open spec fn enc3(v: u32) -> Seq<u8> {
    seq![
        (0xE0 | ((v >> 12) & 0x0F)) as u8,
        (0x80 | ((v >> 6) & 0x3F)) as u8,
        (0x80 | (v & 0x3F)) as u8,
    ]
}

/// The modified encoding of one code point.
pub open spec fn mutf8_encode_char(c: char) -> Seq<u8> {
    let v = c as u32;
    if v == 0 {
        seq![0xC0u8, 0x80u8]
    } else if v < 0x80 {
        seq![v as u8]
    } else if v < 0x800 {
        seq![(0xC0 | ((v >> 6) & 0x1F)) as u8, (0x80 | (v & 0x3F)) as u8]
    } else if v < 0x10000 {
        enc3(v)
    } else {
        enc3((0xD800 + ((v - 0x10000) as u32 >> 10)) as u32) + enc3(
            (0xDC00 + ((v - 0x10000) as u32 & 0x3FF)) as u32,
        )
    }
}

/// The modified encoding of a sequence of code points.
pub open spec fn mutf8_encode(chars: Seq<char>) -> Seq<u8>
    decreases chars.len(),
{
    if chars.len() == 0 {
        seq![]
    } else {
        mutf8_encode_char(chars[0]) + mutf8_encode(chars.drop_first())
    }
}

/// Encoding one more code point appends its bytes.
pub proof fn lemma_mutf8_encode_snoc(chars: Seq<char>, c: char)
    ensures
        mutf8_encode(chars.push(c)) == mutf8_encode(chars) + mutf8_encode_char(c),
    decreases chars.len(),
{
    let p = chars.push(c);
    if chars.len() == 0 {
        assert(p.len() == 1 && p[0] == c);
        assert(p.drop_first() =~= Seq::<char>::empty());
        assert(mutf8_encode(p) == mutf8_encode_char(c) + mutf8_encode(Seq::<char>::empty()));
        assert(mutf8_encode(p) =~= mutf8_encode(chars) + mutf8_encode_char(c));
    } else {
        assert(p[0] == chars[0]);
        assert(p.drop_first() =~= chars.drop_first().push(c));
        lemma_mutf8_encode_snoc(chars.drop_first(), c);
        assert(mutf8_encode(p) == mutf8_encode_char(chars[0]) + mutf8_encode(
            chars.drop_first().push(c),
        ));
        assert(mutf8_encode(p) =~= mutf8_encode(chars) + mutf8_encode_char(c));
    }
}

/// The encoding of one code point followed by anything begins with a
/// well-formed encoding of exactly that code point.
proof fn lemma_encode_char_first(c: char, t: Seq<u8>)
    ensures
        ({
            let e = mutf8_encode_char(c);
            let b = e + t;
            &&& m_first_valid(b)
            &&& m_first_len(b) == e.len()
            &&& m_first_scalar(b) == c as u32
            &&& b.skip(e.len() as int) == t
        }),
{
    vstd::utf8::char_is_scalar(c);
    let v = c as u32;
    let e = mutf8_encode_char(c);
    let b = e + t;
    assert(b.skip(e.len() as int) =~= t);
    if v == 0 {
        assert(b[0] == 0xC0 && b[1] == 0x80);
    } else if v < 0x80 {
        assert(b[0] == v as u8);
        assert(0x01 <= b[0] <= 0x7F);
        assert(m_first_scalar(b) == v);
    } else if v < 0x800 {
        let b0 = (0xC0 | ((v >> 6) & 0x1F)) as u8;
        let b1 = (0x80 | (v & 0x3F)) as u8;
        assert(b[0] == b0 && b[1] == b1);
        assert(0x80 <= v < 0x800 ==> 0xC2 <= ((0xC0u32 | ((v >> 6) & 0x1F)) as u8) <= 0xDF)
            by (bit_vector);
        assert(0x80 <= ((0x80u32 | (v & 0x3F)) as u8) <= 0xBF) by (bit_vector);
        assert(0x80 <= v < 0x800 ==> (((((0xC0u32 | ((v >> 6) & 0x1F)) as u8) & 0x1F) as u32) << 6)
            | ((((0x80u32 | (v & 0x3F)) as u8) & 0x3F) as u32) == v) by (bit_vector);
        assert(codepoint_width_2(b0, b1) == v);
        assert(m_first_valid(b) && m_first_len(b) == 2 && m_first_scalar(b) == v);
    } else if v < 0x10000 {
        let b0 = (0xE0 | ((v >> 12) & 0x0F)) as u8;
        let b1 = (0x80 | ((v >> 6) & 0x3F)) as u8;
        let b2 = (0x80 | (v & 0x3F)) as u8;
        assert(b[0] == b0 && b[1] == b1 && b[2] == b2);
        assert(0xE0 <= ((0xE0u32 | ((v >> 12) & 0x0F)) as u8) <= 0xEF) by (bit_vector);
        assert(0x80 <= ((0x80u32 | ((v >> 6) & 0x3F)) as u8) <= 0xBF) by (bit_vector);
        assert(0x80 <= ((0x80u32 | (v & 0x3F)) as u8) <= 0xBF) by (bit_vector);
        assert(v < 0x10000 ==> ((((((0xE0u32 | ((v >> 12) & 0x0F)) as u8) & 0x0F) as u32) << 12) | (
        ((((0x80u32 | ((v >> 6) & 0x3F)) as u8) & 0x3F) as u32) << 6) | ((((0x80u32 | (v
            & 0x3F)) as u8) & 0x3F) as u32)) == v) by (bit_vector);
        assert(codepoint_width_3(b0, b1, b2) == v);
        assert(!is_low_surrogate(v) && !is_high_surrogate(v));
        assert(m_first_valid(b) && m_first_len(b) == 3 && m_first_scalar(b) == v);
    } else {
        let d = (v - 0x10000) as u32;
        let hi = (0xD800 + (d >> 10)) as u32;
        let lo = (0xDC00 + (d & 0x3FF)) as u32;
        assert(v >= 0x10000 && v <= 0x10FFFF ==> ((v - 0x10000) as u32 >> 10) <= 0x3FF)
            by (bit_vector);
        assert(((v - 0x10000) as u32 & 0x3FF) <= 0x3FF) by (bit_vector);
        assert(e == enc3(hi) + enc3(lo));
        let h0 = (0xE0 | ((hi >> 12) & 0x0F)) as u8;
        let h1 = (0x80 | ((hi >> 6) & 0x3F)) as u8;
        let h2 = (0x80 | (hi & 0x3F)) as u8;
        let l0 = (0xE0 | ((lo >> 12) & 0x0F)) as u8;
        let l1 = (0x80 | ((lo >> 6) & 0x3F)) as u8;
        let l2 = (0x80 | (lo & 0x3F)) as u8;
        assert(b[0] == h0 && b[1] == h1 && b[2] == h2 && b[3] == l0 && b[4] == l1 && b[5] == l2);
        assert(0xD800 <= hi <= 0xDBFF ==> ((0xE0u32 | ((hi >> 12) & 0x0F)) as u8) == 0xED)
            by (bit_vector);
        assert(0x80 <= ((0x80u32 | ((hi >> 6) & 0x3F)) as u8) <= 0xBF) by (bit_vector);
        assert(0x80 <= ((0x80u32 | (hi & 0x3F)) as u8) <= 0xBF) by (bit_vector);
        assert(0xDC00 <= lo <= 0xDFFF ==> ((0xE0u32 | ((lo >> 12) & 0x0F)) as u8) == 0xED)
            by (bit_vector);
        assert(0xDC00 <= lo <= 0xDFFF ==> 0xB0 <= ((0x80u32 | ((lo >> 6) & 0x3F)) as u8) <= 0xBF)
            by (bit_vector);
        assert(0x80 <= ((0x80u32 | (lo & 0x3F)) as u8) <= 0xBF) by (bit_vector);
        assert(0xD800 <= hi <= 0xDBFF ==> (((((0xE0u32 | ((hi >> 12) & 0x0F)) as u8)
            & 0x0F) as u32) << 12) | (((((0x80u32 | ((hi >> 6) & 0x3F)) as u8) & 0x3F) as u32) << 6)
            | ((((0x80u32 | (hi & 0x3F)) as u8) & 0x3F) as u32) == hi) by (bit_vector);
        assert(0xDC00 <= lo <= 0xDFFF ==> (((((0xE0u32 | ((lo >> 12) & 0x0F)) as u8)
            & 0x0F) as u32) << 12) | (((((0x80u32 | ((lo >> 6) & 0x3F)) as u8) & 0x3F) as u32) << 6)
            | ((((0x80u32 | (lo & 0x3F)) as u8) & 0x3F) as u32) == lo) by (bit_vector);
        assert(codepoint_width_3(h0, h1, h2) == hi);
        assert(codepoint_width_3(l0, l1, l2) == lo);
        assert(is_high_surrogate(hi) && is_low_surrogate(lo));
        assert(m_first_valid(b));
        assert(m_first_len(b) == 6);
        assert(d <= 0xFFFFF ==> ((d >> 10) as u32) * 0x400 + (d & 0x3FF) == d) by (bit_vector);
        assert((hi - 0xD800) * 0x400 + (lo - 0xDC00) == d);
        assert(m_first_scalar(b) == (0x10000 + (hi - 0xD800) * 0x400 + (lo - 0xDC00)) as u32);
        assert(0x10000 + (hi - 0xD800) * 0x400 + (lo - 0xDC00) == v);
        assert(m_first_scalar(b) == v);
    }
}

/// The encoder only produces well-formed modified-encoding text.
pub proof fn lemma_mutf8_encode_valid(chars: Seq<char>)
    ensures
        valid_mutf8(mutf8_encode(chars)),
    decreases chars.len(),
{
    if chars.len() != 0 {
        let b = mutf8_encode(chars);
        lemma_encode_char_first(chars[0], mutf8_encode(chars.drop_first()));
        lemma_mutf8_encode_valid(chars.drop_first());
    }
}

/// Decoding inverts encoding: every code point sequence is recovered
/// exactly from its modified encoding.
pub proof fn lemma_mutf8_encode_decode(chars: Seq<char>)
    ensures
        valid_mutf8(mutf8_encode(chars)),
        mutf8_decode(mutf8_encode(chars)) == chars,
    decreases chars.len(),
{
    lemma_mutf8_encode_valid(chars);
    if chars.len() == 0 {
        assert(mutf8_decode(mutf8_encode(chars)) =~= chars);
    } else {
        let b = mutf8_encode(chars);
        lemma_encode_char_first(chars[0], mutf8_encode(chars.drop_first()));
        vstd::utf8::char_u32_cast(chars[0], m_first_scalar(b));
        lemma_mutf8_encode_decode(chars.drop_first());
        assert(mutf8_decode(b) =~= chars);
    }
}

/// Tests every byte for a clear high bit, eight bytes at a time with a
/// scalar remainder, stopping at the first group that fails.
pub fn is_plain_ascii(b: &[u8]) -> (r: bool)
    ensures
        r == forall|i: int| 0 <= i < b@.len() ==> b@[i] < 0x80,
{
    let n = b.len();
    let mut i: usize = 0;
    while n - i >= 8
        invariant
            i <= n,
            n == b@.len(),
            forall|j: int| 0 <= j < i ==> b@[j] < 0x80,
        decreases n - i,
    {
        let b0 = *vstd::slice::slice_index_get(b, i);
        let b1 = *vstd::slice::slice_index_get(b, i + 1);
        let b2 = *vstd::slice::slice_index_get(b, i + 2);
        let b3 = *vstd::slice::slice_index_get(b, i + 3);
        let b4 = *vstd::slice::slice_index_get(b, i + 4);
        let b5 = *vstd::slice::slice_index_get(b, i + 5);
        let b6 = *vstd::slice::slice_index_get(b, i + 6);
        let b7 = *vstd::slice::slice_index_get(b, i + 7);
        let m = b0 | b1 | b2 | b3 | b4 | b5 | b6 | b7;
        if m & 0x80 != 0 {
            proof {
                assert((b0 | b1 | b2 | b3 | b4 | b5 | b6 | b7) & 0x80 != 0 ==> b0 >= 0x80 || b1
                    >= 0x80 || b2 >= 0x80 || b3 >= 0x80 || b4 >= 0x80 || b5 >= 0x80 || b6 >= 0x80
                    || b7 >= 0x80) by (bit_vector);
            }
            return false;
        }
        proof {
            assert((b0 | b1 | b2 | b3 | b4 | b5 | b6 | b7) & 0x80 == 0 ==> b0 < 0x80 && b1 < 0x80
                && b2 < 0x80 && b3 < 0x80 && b4 < 0x80 && b5 < 0x80 && b6 < 0x80 && b7 < 0x80)
                by (bit_vector);
        }
        i += 8;
    }
    while i < n
        invariant
            i <= n,
            n == b@.len(),
            forall|j: int| 0 <= j < i ==> b@[j] < 0x80,
        decreases n - i,
    {
        let b0 = *vstd::slice::slice_index_get(b, i);
        if b0 & 0x80 != 0 {
            proof {
                assert(b0 & 0x80 != 0 ==> b0 >= 0x80) by (bit_vector);
            }
            return false;
        }
        proof {
            assert(b0 & 0x80 == 0 ==> b0 < 0x80) by (bit_vector);
        }
        i += 1;
    }
    true
}

/// Scans the bytes against the modified-encoding grammar.
pub fn is_valid_mutf8(b: &[u8]) -> (r: bool)
    ensures
        r == valid_mutf8(b@),
{
    let n = b.len();
    let mut i: usize = 0;
    assert(b@.skip(0) =~= b@);
    while i < n
        invariant
            i <= n,
            n == b@.len(),
            valid_mutf8(b@) == valid_mutf8(b@.skip(i as int)),
        decreases n - i,
    {
        let ghost rest = b@.skip(i as int);
        let b0 = *vstd::slice::slice_index_get(b, i);
        assert(rest[0] == b@[i as int]);
        let w: usize;
        if b0 == 0 {
            assert(!m_first_valid(rest));
            return false;
        } else if b0 < 0x80 {
            assert(m_first_valid(rest) && m_first_len(rest) == 1);
            w = 1;
        } else if b0 == 0xC0 {
            if n - i < 2 {
                assert(!m_first_valid(rest));
                return false;
            }
            let b1 = *vstd::slice::slice_index_get(b, i + 1);
            assert(rest[1] == b@[i as int + 1]);
            if b1 != 0x80 {
                assert(!m_first_valid(rest));
                return false;
            }
            assert(m_first_valid(rest) && m_first_len(rest) == 2);
            w = 2;
        } else if 0xC2 <= b0 && b0 <= 0xDF {
            if n - i < 2 {
                assert(!m_first_valid(rest));
                return false;
            }
            let b1 = *vstd::slice::slice_index_get(b, i + 1);
            assert(rest[1] == b@[i as int + 1]);
            if b1 < 0x80 || b1 > 0xBF {
                assert(!m_first_valid(rest));
                return false;
            }
            assert(m_first_valid(rest) && m_first_len(rest) == 2);
            w = 2;
        } else if 0xE0 <= b0 && b0 <= 0xEF {
            if n - i < 3 {
                assert(!m_first_valid(rest));
                return false;
            }
            let b1 = *vstd::slice::slice_index_get(b, i + 1);
            let b2 = *vstd::slice::slice_index_get(b, i + 2);
            assert(rest[1] == b@[i as int + 1] && rest[2] == b@[i as int + 2]);
            if b1 < 0x80 || b1 > 0xBF || b2 < 0x80 || b2 > 0xBF {
                assert(!m_first_valid(rest));
                return false;
            }
            let v: u32 = (((b0 & 0x0F) as u32) << 12) | (((b1 & 0x3F) as u32) << 6) | ((b2
                & 0x3F) as u32);
            assert(v == codepoint_width_3(b0, b1, b2));
            if v < 0x800 {
                assert(!m_first_valid(rest));
                return false;
            }
            if 0xDC00 <= v && v <= 0xDFFF {
                assert(!m_first_valid(rest));
                return false;
            }
            if 0xD800 <= v && v <= 0xDBFF {
                if n - i < 6 {
                    assert(!m_first_valid(rest));
                    return false;
                }
                let b3 = *vstd::slice::slice_index_get(b, i + 3);
                let b4 = *vstd::slice::slice_index_get(b, i + 4);
                let b5 = *vstd::slice::slice_index_get(b, i + 5);
                assert(rest[3] == b@[i as int + 3] && rest[4] == b@[i as int + 4] && rest[5] == b@[
                    i as int + 5]);
                if b3 != 0xED || b4 < 0xB0 || b4 > 0xBF || b5 < 0x80 || b5 > 0xBF {
                    assert(!m_first_valid(rest));
                    return false;
                }
                assert(m_first_valid(rest) && m_first_len(rest) == 6);
                w = 6;
            } else {
                assert(m_first_valid(rest) && m_first_len(rest) == 3);
                w = 3;
            }
        } else {
            assert(!m_first_valid(rest));
            return false;
        }
        assert(valid_mutf8(rest) == valid_mutf8(rest.skip(w as int)));
        assert(rest.skip(w as int) =~= b@.skip(i as int + w as int));
        i += w;
    }
    assert(b@.skip(n as int) =~= Seq::<u8>::empty());
    true
}

/// Appends the three-byte form of the low 16 bits of a value.
fn push_enc3(out: &mut Vec<u8>, v: u32)
    ensures
        final(out)@ == old(out)@ + enc3(v),
{
    proof {
        assert((0xE0u32 | ((v >> 12) & 0x0F)) <= 0xFF) by (bit_vector);
        assert((0x80u32 | ((v >> 6) & 0x3F)) <= 0xFF) by (bit_vector);
        assert((0x80u32 | (v & 0x3F)) <= 0xFF) by (bit_vector);
    }
    out.push((0xE0 | ((v >> 12) & 0x0F)) as u8);
    out.push((0x80 | ((v >> 6) & 0x3F)) as u8);
    out.push((0x80 | (v & 0x3F)) as u8);
    assert(out@ =~= old(out)@ + enc3(v));
}

/// Appends the modified encoding of one code point.
fn push_mutf8_char(out: &mut Vec<u8>, c: char)
    ensures
        final(out)@ == old(out)@ + mutf8_encode_char(c),
{
    let v = c as u32;
    if v == 0 {
        out.push(0xC0);
        out.push(0x80);
        assert(out@ =~= old(out)@ + mutf8_encode_char(c));
    } else if v < 0x80 {
        out.push(v as u8);
        assert(out@ =~= old(out)@ + mutf8_encode_char(c));
    } else if v < 0x800 {
        proof {
            assert((0xC0u32 | ((v >> 6) & 0x1F)) <= 0xFF) by (bit_vector);
            assert((0x80u32 | (v & 0x3F)) <= 0xFF) by (bit_vector);
        }
        out.push((0xC0 | ((v >> 6) & 0x1F)) as u8);
        out.push((0x80 | (v & 0x3F)) as u8);
        assert(out@ =~= old(out)@ + mutf8_encode_char(c));
    } else if v < 0x10000 {
        push_enc3(out, v);
        assert(out@ =~= old(out)@ + mutf8_encode_char(c));
    } else {
        proof {
            vstd::utf8::char_is_scalar(c);
            assert(v <= 0x10FFFF);
            assert(v >= 0x10000 && v <= 0x10FFFF ==> ((v - 0x10000) as u32 >> 10) <= 0x3FF)
                by (bit_vector);
            assert(((v - 0x10000) as u32 & 0x3FF) <= 0x3FF) by (bit_vector);
        }
        let d = v - 0x10000;
        push_enc3(out, 0xD800 + (d >> 10));
        push_enc3(out, 0xDC00 + (d & 0x3FF));
        assert(out@ =~= old(out)@ + mutf8_encode_char(c));
    }
}

/// Encoding one more code point in standard UTF-8 appends its bytes.
proof fn lemma_utf8_encode_snoc(chars: Seq<char>, c: char)
    ensures
        encode_utf8(chars.push(c)) == encode_utf8(chars) + encode_scalar(c as u32),
    decreases chars.len(),
{
    let p = chars.push(c);
    if chars.len() == 0 {
        assert(p.len() == 1 && p[0] == c);
        assert(p.drop_first() =~= Seq::<char>::empty());
        assert(encode_utf8(p) == encode_scalar(p[0] as u32) + encode_utf8(Seq::<char>::empty()));
        assert(encode_utf8(p) =~= encode_utf8(chars) + encode_scalar(c as u32));
    } else {
        assert(p[0] == chars[0]);
        assert(p.drop_first() =~= chars.drop_first().push(c));
        lemma_utf8_encode_snoc(chars.drop_first(), c);
        assert(encode_utf8(p) =~= encode_utf8(chars) + encode_scalar(c as u32));
    }
}

/// Appends the standard UTF-8 encoding of one code point.
fn push_utf8_char(out: &mut Vec<u8>, c: char)
    ensures
        final(out)@ == old(out)@ + encode_scalar(c as u32),
{
    proof {
        vstd::utf8::char_is_scalar(c);
    }
    let v = c as u32;
    if v < 0x80 {
        proof {
            assert(v < 0x80 ==> ((v & 0x7F) as u8) == (v as u8)) by (bit_vector);
        }
        out.push(v as u8);
        assert(out@ =~= old(out)@ + encode_scalar(c as u32));
    } else if v < 0x800 {
        proof {
            assert(((v >> 6) & 0x1F) <= 0x1F) by (bit_vector);
            assert((v & 0x3F) <= 0x3F) by (bit_vector);
        }
        out.push(0xC0 | (((v >> 6) & 0x1F) as u8));
        out.push(0x80 | ((v & 0x3F) as u8));
        assert(out@ =~= old(out)@ + encode_scalar(c as u32));
    } else if v < 0x10000 {
        proof {
            assert(((v >> 12) & 0x0F) <= 0x0F) by (bit_vector);
            assert(((v >> 6) & 0x3F) <= 0x3F) by (bit_vector);
            assert((v & 0x3F) <= 0x3F) by (bit_vector);
        }
        out.push(0xE0 | (((v >> 12) & 0x0F) as u8));
        out.push(0x80 | (((v >> 6) & 0x3F) as u8));
        out.push(0x80 | ((v & 0x3F) as u8));
        assert(out@ =~= old(out)@ + encode_scalar(c as u32));
    } else {
        proof {
            assert(((v >> 18) & 0x7) <= 0x7) by (bit_vector);
            assert(((v >> 12) & 0x3F) <= 0x3F) by (bit_vector);
            assert(((v >> 6) & 0x3F) <= 0x3F) by (bit_vector);
            assert((v & 0x3F) <= 0x3F) by (bit_vector);
        }
        out.push(0xF0 | (((v >> 18) & 0x7) as u8));
        out.push(0x80 | (((v >> 12) & 0x3F) as u8));
        out.push(0x80 | (((v >> 6) & 0x3F) as u8));
        out.push(0x80 | ((v & 0x3F) as u8));
        assert(out@ =~= old(out)@ + encode_scalar(c as u32));
    }
}

/// Transcodes well-formed modified-encoding text into the standard UTF-8
/// bytes of the same code points.
fn mutf8_to_utf8(b: &[u8]) -> (r: Vec<u8>)
    requires
        valid_mutf8(b@),
    ensures
        r@ == encode_utf8(mutf8_decode(b@)),
        valid_utf8(r@),
{
    broadcast use vstd::utf8::encode_utf8_valid_utf8;

    let n = b.len();
    let mut out: Vec<u8> = Vec::new();
    let mut i: usize = 0;
    let ghost mut done: Seq<char> = Seq::empty();
    assert(b@.skip(0) =~= b@);
    assert(done + mutf8_decode(b@) =~= mutf8_decode(b@));
    while i < n
        invariant
            i <= n,
            n == b@.len(),
            valid_mutf8(b@.skip(i as int)),
            mutf8_decode(b@) == done + mutf8_decode(b@.skip(i as int)),
            out@ == encode_utf8(done),
        decreases n - i,
    {
        let ghost rest = b@.skip(i as int);
        assert(rest.len() == n - i && m_first_valid(rest));
        assert(rest[0] == b@[i as int]);
        let b0 = *vstd::slice::slice_index_get(b, i);
        let v: u32;
        let w: usize;
        if b0 < 0x80 {
            v = b0 as u32;
            w = 1;
        } else if b0 == 0xC0 {
            v = 0;
            w = 2;
        } else if b0 < 0xE0 {
            assert(rest[1] == b@[i as int + 1]);
            let b1 = *vstd::slice::slice_index_get(b, i + 1);
            v = (((b0 & 0x1F) as u32) << 6) | ((b1 & 0x3F) as u32);
            assert(v == codepoint_width_2(b0, b1));
            proof {
                assert(((((b0 & 0x1F) as u32) << 6) | ((b1 & 0x3F) as u32)) <= 0x7FF)
                    by (bit_vector);
            }
            w = 2;
        } else if b0 < 0xF0 {
            assert(rest[1] == b@[i as int + 1] && rest[2] == b@[i as int + 2]);
            let b1 = *vstd::slice::slice_index_get(b, i + 1);
            let b2 = *vstd::slice::slice_index_get(b, i + 2);
            let v3: u32 = (((b0 & 0x0F) as u32) << 12) | (((b1 & 0x3F) as u32) << 6) | ((b2
                & 0x3F) as u32);
            assert(v3 == codepoint_width_3(b0, b1, b2));
            proof {
                assert(((((b0 & 0x0F) as u32) << 12) | (((b1 & 0x3F) as u32) << 6) | ((b2
                    & 0x3F) as u32)) <= 0xFFFF) by (bit_vector);
            }
            if 0xD800 <= v3 && v3 <= 0xDBFF {
                assert(rest[3] == b@[i as int + 3] && rest[4] == b@[i as int + 4] && rest[5] == b@[
                    i as int + 5]);
                let b3 = *vstd::slice::slice_index_get(b, i + 3);
                let b4 = *vstd::slice::slice_index_get(b, i + 4);
                let b5 = *vstd::slice::slice_index_get(b, i + 5);
                let lo: u32 = (((b3 & 0x0F) as u32) << 12) | (((b4 & 0x3F) as u32) << 6) | ((b5
                    & 0x3F) as u32);
                assert(lo == codepoint_width_3(b3, b4, b5));
                assert(b3 == 0xED && 0xB0 <= b4 <= 0xBF && 0x80 <= b5 <= 0xBF ==> 0xDC00 <= ((((
                b3 & 0x0F) as u32) << 12) | (((b4 & 0x3F) as u32) << 6) | ((b5 & 0x3F) as u32))
                    <= 0xDFFF) by (bit_vector);
                assert(0xDC00 <= lo <= 0xDFFF);
                v = 0x10000 + ((v3 - 0xD800) * 0x400) + (lo - 0xDC00);
                assert(v == m_first_scalar(rest));
                w = 6;
            } else {
                v = v3;
                w = 3;
            }
        } else {
            // the well-formedness invariant admits no other leading byte
            proof {
                assert(false);
            }
            return vstd::pervasive::unreached();
        }
        assert(v == m_first_scalar(rest) && w == m_first_len(rest));
        let c = char_from_scalar(v);
        push_utf8_char(&mut out, c);
        proof {
            lemma_utf8_encode_snoc(done, c);
            assert(rest.skip(w as int) =~= b@.skip(i as int + w as int));
            assert(mutf8_decode(rest) == seq![c] + mutf8_decode(rest.skip(w as int)));
            assert(done.push(c) + mutf8_decode(rest.skip(w as int)) =~= done + mutf8_decode(rest));
            done = done.push(c);
        }
        i += w;
    }
    assert(b@.skip(n as int) =~= Seq::<u8>::empty());
    assert(done =~= mutf8_decode(b@));
    out
}

/// Relies on char::from_u32: a value below 0x110000 and outside the
/// surrogate range converts to the code point with exactly that value.
#[verifier::external_body]
fn char_from_scalar(v: u32) -> (c: char)
    requires
        v < 0x110000,
        !(0xD800 <= v <= 0xDFFF),
    ensures
        c as u32 == v,
{
    char::from_u32(v).unwrap_or('\u{0}')
}

/// Relies on str::from_utf8: on bytes that are valid UTF-8 it returns the
/// text holding exactly those bytes; the requirement rules the error case
/// out, so the empty fallback is never taken.
#[verifier::external_body]
fn str_from_utf8(v: &[u8]) -> (r: &str)
    requires
        valid_utf8(v@),
    ensures
        r.spec_bytes() == v@,
{
    std::str::from_utf8(v).unwrap_or("")
}

/// Well-formed modified-encoding text that is plain ASCII is also valid
/// standard UTF-8 and decodes to the same code points under both readings.
proof fn lemma_ascii_mutf8(b: Seq<u8>)
    requires
        valid_mutf8(b),
        forall|i: int| 0 <= i < b.len() ==> b[i] < 0x80,
    ensures
        valid_utf8(b),
        encode_utf8(mutf8_decode(b)) == b,
    decreases b.len(),
{
    broadcast use vstd::utf8::encode_utf8_valid_utf8;

    if b.len() == 0 {
        assert(encode_utf8(mutf8_decode(b)) =~= b);
    } else {
        assert(m_first_valid(b));
        assert(0x01 <= b[0] <= 0x7F);
        let c = m_first_scalar(b) as char;
        assert(m_first_scalar(b) == b[0] as u32);
        vstd::utf8::char_u32_cast(c, b[0] as u32);
        assert(c as u32 == b[0] as u32);
        let b0 = b[0];
        assert(b0 < 0x80 ==> (((b0 as u32) & 0x7F) as u8) == b0) by (bit_vector);
        lemma_ascii_mutf8(b.skip(1));
        assert(mutf8_decode(b) == seq![c] + mutf8_decode(b.skip(1)));
        assert(mutf8_decode(b).drop_first() =~= mutf8_decode(b.skip(1)));
        assert(encode_scalar(c as u32) =~= seq![b[0]]);
        assert(encode_utf8(mutf8_decode(b)) =~= b);
        vstd::utf8::encode_utf8_valid_utf8(mutf8_decode(b));
    }
}

/// A borrowed slice of well-formed modified-encoding text; its view is the
/// raw byte sequence. Values are only built from bytes that passed the
/// grammar or were produced by the encoder, so the bytes are never
/// arbitrary.
#[derive(Debug, PartialEq, Eq)]
pub struct Mutf8Str<'a> {
    bytes: &'a [u8],
}

/// An owned modified-encoding string; its view is the raw byte sequence.
#[derive(Debug, PartialEq, Eq, Clone)]
pub struct Mutf8String {
    vec: Vec<u8>,
}

impl<'a> View for Mutf8Str<'a> {
    type V = Seq<u8>;

    closed spec fn view(&self) -> Seq<u8> {
        self.bytes@
    }
}

impl View for Mutf8String {
    type V = Seq<u8>;

    closed spec fn view(&self) -> Seq<u8> {
        self.vec@
    }
}

impl<'a> Mutf8Str<'a> {
    /// The bytes are well-formed modified-encoding text.
    pub open spec fn wf(self) -> bool {
        valid_mutf8(self@)
    }

    /// Checks the slice against the grammar and borrows it as text.
    pub fn from_slice(slice: &'a [u8]) -> (r: Option<Mutf8Str<'a>>)
        ensures
            match r {
                Some(s) => s@ == slice@ && s.wf(),
                None => !valid_mutf8(slice@),
            },
    {
        if is_valid_mutf8(slice) {
            Some(Mutf8Str { bytes: slice })
        } else {
            None
        }
    }

    /// The length in bytes of the encoded form.
    pub fn len(&self) -> (r: usize)
        ensures
            r == self@.len(),
    {
        self.bytes.len()
    }

    /// The raw bytes of the encoded form.
    pub fn as_bytes(&self) -> (r: &'a [u8])
        ensures
            r@ == self@,
    {
        self.bytes
    }

    /// Encodes a standard string into the modified encoding.
    pub fn from_str(s: &str) -> (r: Mutf8String)
        ensures
            r@ == mutf8_encode(s@),
            r.wf(),
    {
        broadcast use vstd::string::axiom_spec_iter;
        broadcast use vstd::string::next_postcondition;

        let mut out: Vec<u8> = Vec::new();
        let ghost mut done: Seq<char> = Seq::empty();
        let mut it = s.chars();
        assert(done + it.remaining() =~= s@);
        loop
            invariant_except_break
                done + it.remaining() == s@,
                out@ == mutf8_encode(done),
                it.decrease() is Some,
            ensures
                out@ == mutf8_encode(s@),
            decreases it.decrease()->0,
        {
            let ghost pre = it.remaining();
            match it.next() {
                Some(c) => {
                    proof {
                        lemma_mutf8_encode_snoc(done, c);
                        assert(done.push(c) + it.remaining() =~= done + pre);
                    }
                    push_mutf8_char(&mut out, c);
                    proof {
                        done = done.push(c);
                    }
                },
                None => {
                    proof {
                        assert(pre.len() == 0);
                        assert(done =~= s@);
                    }
                    break ;
                },
            }
        }
        proof {
            lemma_mutf8_encode_valid(s@);
        }
        Mutf8String { vec: out }
    }

    /// Decodes the text into a standard string; the well-formedness
    /// invariant means this never fails.
    pub fn to_str(&self) -> (r: String)
        requires
            self.wf(),
        ensures
            r@ == mutf8_decode(self@),
    {
        if is_plain_ascii(self.bytes) {
            proof {
                lemma_ascii_mutf8(self@);
            }
            let s = str_from_utf8(self.bytes);
            let r = s.to_owned();
            assert(encode_utf8(r@) == encode_utf8(mutf8_decode(self@)));
            proof {
                vstd::utf8::encode_utf8_decode_utf8(r@);
                vstd::utf8::encode_utf8_decode_utf8(mutf8_decode(self@));
            }
            assert(r@ == mutf8_decode(self@));
            r
        } else {
            let ut = mutf8_to_utf8(self.bytes);
            let s = str_from_utf8(ut.as_slice());
            let r = s.to_owned();
            assert(encode_utf8(r@) == encode_utf8(mutf8_decode(self@)));
            proof {
                vstd::utf8::encode_utf8_decode_utf8(r@);
                vstd::utf8::encode_utf8_decode_utf8(mutf8_decode(self@));
            }
            assert(r@ == mutf8_decode(self@));
            r
        }
    }

    /// Decodes the text into a standard string for diagnostics; on a value
    /// of this type, whose bytes are always well-formed, the decoding is
    /// exact and never substitutes replacement characters.
    pub fn to_string_lossy(&self) -> (r: String)
        requires
            self.wf(),
        ensures
            r@ == mutf8_decode(self@),
    {
        self.to_str()
    }

    /// Copies the text into owned storage.
    pub fn to_owned_string(&self) -> (r: Mutf8String)
        ensures
            r@ == self@,
            r.wf() == self.wf(),
    {
        Mutf8String { vec: vstd::slice::slice_to_vec(self.bytes) }
    }
}

impl Mutf8String {
    /// The bytes are well-formed modified-encoding text.
    pub open spec fn wf(self) -> bool {
        valid_mutf8(self@)
    }

    /// Borrows the owned bytes as a text view; the conversion is the
    /// identity on the underlying bytes.
    pub fn as_str(&self) -> (r: Mutf8Str<'_>)
        ensures
            r@ == self@,
            r.wf() == self.wf(),
    {
        Mutf8Str { bytes: self.vec.as_slice() }
    }

    /// The length in bytes of the encoded form.
    pub fn len(&self) -> (r: usize)
        ensures
            r == self@.len(),
    {
        self.vec.len()
    }

    /// Decodes the owned text into a standard string; the well-formedness
    /// invariant means this never fails.
    pub fn into_string(self) -> (r: String)
        requires
            self.wf(),
        ensures
            r@ == mutf8_decode(self@),
    {
        self.as_str().to_str()
    }
}

} // verus!
