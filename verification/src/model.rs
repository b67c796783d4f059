//! The mathematical model of a document: ghost values mirroring the tag
//! tree, the exact wire encoding of a model value, and the parsing grammar
//! as recursive specification functions. The executable reader and writer
//! are specified against these, and the round-trip law is proved here.

use crate::mutf8::valid_mutf8;
use crate::wire::be_u16;
use crate::wire::be_u32;
use crate::wire::be_u64;
use crate::wire::enc_u16;
use crate::wire::enc_u32;
use crate::wire::enc_u64;
use crate::wire::i16_of;
use crate::wire::i32_of;
use crate::wire::i64_of;
use crate::wire::i8_of;
use crate::wire::u16_of_i16;
use crate::wire::u32_of_i32;
use crate::wire::u64_of_i64;
use crate::wire::u8_of_i8;
use crate::Error;
use vstd::prelude::*;

verus! {

/// The model of one tag value. Floats are carried as their raw bit patterns
/// so that re-encoding is exact; numeric arrays are carried as the raw
/// big-endian bytes they occupy on the wire.
#[verifier::ext_equal]
pub enum TagM {
    Byte(i8),
    Short(i16),
    Int(i32),
    Long(i64),
    Float(u32),
    Double(u64),
    ByteArray(Seq<u8>),
    String(Seq<u8>),
    List(ListM),
    Compound(Seq<(Seq<u8>, TagM)>),
    IntArray(Seq<u8>),
    LongArray(Seq<u8>),
}

/// The model of a list value: one variant per declared element type. A
/// zero-length list keeps the declared element-type byte it was read with,
/// so that re-encoding reproduces it verbatim.
#[verifier::ext_equal]
pub enum ListM {
    Empty(u8),
    Byte(Seq<i8>),
    Short(Seq<i16>),
    Int(Seq<u8>),
    Long(Seq<u8>),
    Float(Seq<u32>),
    Double(Seq<u64>),
    ByteArray(Seq<Seq<u8>>),
    String(Seq<Seq<u8>>),
    List(Seq<ListM>),
    Compound(Seq<Seq<(Seq<u8>, TagM)>>),
    IntArray(Seq<Seq<u8>>),
    LongArray(Seq<Seq<u8>>),
}

/// The model of a present root document: its name and its compound's pairs.
#[verifier::ext_equal]
pub struct NbtM {
    pub name: Seq<u8>,
    pub entries: Seq<(Seq<u8>, TagM)>,
}

/// The model of a decoded document: a present root or the absent marker.
#[verifier::ext_equal]
pub enum OptNbtM {
    Present(NbtM),
    Absent,
}

/// The one-byte discriminant of a tag value.
pub open spec fn tag_id_of(m: TagM) -> u8 {
    match m {
        TagM::Byte(_) => 1,
        TagM::Short(_) => 2,
        TagM::Int(_) => 3,
        TagM::Long(_) => 4,
        TagM::Float(_) => 5,
        TagM::Double(_) => 6,
        TagM::ByteArray(_) => 7,
        TagM::String(_) => 8,
        TagM::List(_) => 9,
        TagM::Compound(_) => 10,
        TagM::IntArray(_) => 11,
        TagM::LongArray(_) => 12,
    }
}

/// The one-byte discriminant a list's elements were declared with.
pub open spec fn list_elem_id(l: ListM) -> u8 {
    match l {
        ListM::Empty(t) => t,
        ListM::Byte(_) => 1,
        ListM::Short(_) => 2,
        ListM::Int(_) => 3,
        ListM::Long(_) => 4,
        ListM::Float(_) => 5,
        ListM::Double(_) => 6,
        ListM::ByteArray(_) => 7,
        ListM::String(_) => 8,
        ListM::List(_) => 9,
        ListM::Compound(_) => 10,
        ListM::IntArray(_) => 11,
        ListM::LongArray(_) => 12,
    }
}

/// True when the byte is the discriminant of a value type.
pub open spec fn tag_known(t: u8) -> bool {
    1 <= t <= 12
}

/// A length-prefixed string: a 16-bit length, then the bytes.
pub open spec fn enc_str(s: Seq<u8>) -> Seq<u8> {
    enc_u16(s.len() as u16) + s
}

/// A byte array payload: a 32-bit count, then the bytes.
pub open spec fn enc_barr(b: Seq<u8>) -> Seq<u8> {
    enc_u32(b.len() as u32) + b
}

/// A 32-bit integer array payload: an element count, then the raw bytes.
pub open spec fn enc_iarr(b: Seq<u8>) -> Seq<u8> {
    enc_u32((b.len() / 4) as u32) + b
}

/// A 64-bit integer array payload: an element count, then the raw bytes.
pub open spec fn enc_larr(b: Seq<u8>) -> Seq<u8> {
    enc_u32((b.len() / 8) as u32) + b
}

/// The bytes of a sequence of 8-bit list elements.
pub open spec fn enc_i8s(vs: Seq<i8>) -> Seq<u8>
    decreases vs.len(),
{
    if vs.len() == 0 {
        seq![]
    } else {
        seq![u8_of_i8(vs[0])] + enc_i8s(vs.drop_first())
    }
}

/// The bytes of a sequence of 16-bit list elements.
pub open spec fn enc_i16s(vs: Seq<i16>) -> Seq<u8>
    decreases vs.len(),
{
    if vs.len() == 0 {
        seq![]
    } else {
        enc_u16(u16_of_i16(vs[0])) + enc_i16s(vs.drop_first())
    }
}

/// The bytes of a sequence of 32-bit float list elements, by bit pattern.
pub open spec fn enc_f32s(vs: Seq<u32>) -> Seq<u8>
    decreases vs.len(),
{
    if vs.len() == 0 {
        seq![]
    } else {
        enc_u32(vs[0]) + enc_f32s(vs.drop_first())
    }
}

/// The bytes of a sequence of 64-bit float list elements, by bit pattern.
pub open spec fn enc_f64s(vs: Seq<u64>) -> Seq<u8>
    decreases vs.len(),
{
    if vs.len() == 0 {
        seq![]
    } else {
        enc_u64(vs[0]) + enc_f64s(vs.drop_first())
    }
}

/// The bytes of a sequence of byte-array list elements.
pub open spec fn enc_barrs(vs: Seq<Seq<u8>>) -> Seq<u8>
    decreases vs.len(),
{
    if vs.len() == 0 {
        seq![]
    } else {
        enc_barr(vs[0]) + enc_barrs(vs.drop_first())
    }
}

/// The bytes of a sequence of string list elements.
pub open spec fn enc_strs(vs: Seq<Seq<u8>>) -> Seq<u8>
    decreases vs.len(),
{
    if vs.len() == 0 {
        seq![]
    } else {
        enc_str(vs[0]) + enc_strs(vs.drop_first())
    }
}

/// The bytes of a sequence of 32-bit integer array list elements.
pub open spec fn enc_iarrs(vs: Seq<Seq<u8>>) -> Seq<u8>
    decreases vs.len(),
{
    if vs.len() == 0 {
        seq![]
    } else {
        enc_iarr(vs[0]) + enc_iarrs(vs.drop_first())
    }
}

/// The bytes of a sequence of 64-bit integer array list elements.
pub open spec fn enc_larrs(vs: Seq<Seq<u8>>) -> Seq<u8>
    decreases vs.len(),
{
    if vs.len() == 0 {
        seq![]
    } else {
        enc_larr(vs[0]) + enc_larrs(vs.drop_first())
    }
}

/// The payload bytes of one tag value (no leading discriminant byte).
pub open spec fn enc_payload(m: TagM) -> Seq<u8>
    decreases m,
{
    match m {
        TagM::Byte(v) => seq![u8_of_i8(v)],
        TagM::Short(v) => enc_u16(u16_of_i16(v)),
        TagM::Int(v) => enc_u32(u32_of_i32(v)),
        TagM::Long(v) => enc_u64(u64_of_i64(v)),
        TagM::Float(bits) => enc_u32(bits),
        TagM::Double(bits) => enc_u64(bits),
        TagM::ByteArray(b) => enc_barr(b),
        TagM::String(s) => enc_str(s),
        TagM::List(l) => enc_list(l),
        TagM::Compound(es) => enc_entries(es) + seq![0u8],
        TagM::IntArray(b) => enc_iarr(b),
        TagM::LongArray(b) => enc_larr(b),
    }
}

/// A list payload: the element-type byte, a 32-bit count, then each
/// element's payload with no per-element type byte.
pub open spec fn enc_list(l: ListM) -> Seq<u8>
    decreases l,
{
    seq![list_elem_id(l)] + match l {
        ListM::Empty(_) => enc_u32(0),
        ListM::Byte(vs) => enc_u32(vs.len() as u32) + enc_i8s(vs),
        ListM::Short(vs) => enc_u32(vs.len() as u32) + enc_i16s(vs),
        ListM::Int(b) => enc_u32((b.len() / 4) as u32) + b,
        ListM::Long(b) => enc_u32((b.len() / 8) as u32) + b,
        ListM::Float(vs) => enc_u32(vs.len() as u32) + enc_f32s(vs),
        ListM::Double(vs) => enc_u32(vs.len() as u32) + enc_f64s(vs),
        ListM::ByteArray(vs) => enc_u32(vs.len() as u32) + enc_barrs(vs),
        ListM::String(vs) => enc_u32(vs.len() as u32) + enc_strs(vs),
        ListM::List(ls) => enc_u32(ls.len() as u32) + enc_list_elems(ls),
        ListM::Compound(cs) => enc_u32(cs.len() as u32) + enc_comp_elems(cs),
        ListM::IntArray(vs) => enc_u32(vs.len() as u32) + enc_iarrs(vs),
        ListM::LongArray(vs) => enc_u32(vs.len() as u32) + enc_larrs(vs),
    }
}

/// The bytes of a sequence of list-of-list elements.
pub open spec fn enc_list_elems(ls: Seq<ListM>) -> Seq<u8>
    decreases ls,
{
    if ls.len() == 0 {
        seq![]
    } else {
        enc_list(ls[0]) + enc_list_elems(ls.drop_first())
    }
}

/// The bytes of a sequence of compound list elements; each is a compound
/// body with its own end terminator.
pub open spec fn enc_comp_elems(cs: Seq<Seq<(Seq<u8>, TagM)>>) -> Seq<u8>
    decreases cs,
{
    if cs.len() == 0 {
        seq![]
    } else {
        (enc_entries(cs[0]) + seq![0u8]) + enc_comp_elems(cs.drop_first())
    }
}

/// The bytes of a compound's pairs in stored order, without the trailing
/// end byte: for each pair the discriminant, the name, then the payload.
pub open spec fn enc_entries(es: Seq<(Seq<u8>, TagM)>) -> Seq<u8>
    decreases es,
{
    if es.len() == 0 {
        seq![]
    } else {
        (seq![tag_id_of(es[0].1)] + enc_str(es[0].0) + enc_payload(es[0].1)) + enc_entries(
            es.drop_first(),
        )
    }
}

/// The wire form of a whole document: a single end byte for the absent
/// document; else the compound discriminant, the root name, the pairs, and
/// the root's terminating end byte.
pub open spec fn enc_document(o: OptNbtM) -> Seq<u8> {
    match o {
        OptNbtM::Absent => seq![0u8],
        OptNbtM::Present(n) => seq![10u8] + enc_str(n.name) + enc_entries(n.entries) + seq![0u8],
    }
}

/// Reads a length-prefixed string at `pos`: fails when the buffer ends
/// before the length or the bytes, or when the bytes break the modified
/// encoding's grammar.
pub open spec fn parse_str(data: Seq<u8>, pos: int) -> Result<(Seq<u8>, int), Error> {
    if pos + 2 > data.len() {
        Err(Error::UnexpectedEof)
    } else {
        let n = be_u16(data[pos], data[pos + 1]) as int;
        if pos + 2 + n > data.len() {
            Err(Error::UnexpectedEof)
        } else {
            let s = data.subrange(pos + 2, pos + 2 + n);
            if valid_mutf8(s) {
                Ok((s, pos + 2 + n))
            } else {
                Err(Error::MalformedString)
            }
        }
    }
}

/// Reads a 32-bit element count at `pos`: fails when the buffer ends first
/// or the count is negative, which no remaining buffer could satisfy.
pub open spec fn parse_count(data: Seq<u8>, pos: int) -> Result<(int, int), Error> {
    if pos + 4 > data.len() {
        Err(Error::UnexpectedEof)
    } else {
        let c = be_u32(data[pos], data[pos + 1], data[pos + 2], data[pos + 3]);
        if c > 0x7FFF_FFFF {
            Err(Error::UnexpectedEof)
        } else {
            Ok((c as int, pos + 4))
        }
    }
}

/// Reads a byte array payload: a count validated against the remaining
/// buffer, then that many raw bytes.
pub open spec fn parse_barr(data: Seq<u8>, pos: int) -> Result<(Seq<u8>, int), Error> {
    match parse_count(data, pos) {
        Err(e) => Err(e),
        Ok((n, p)) => if p + n > data.len() {
            Err(Error::UnexpectedEof)
        } else {
            Ok((data.subrange(p, p + n), p + n))
        },
    }
}

/// Reads a 32-bit integer array payload: a count validated against the
/// remaining buffer, then the raw big-endian bytes kept verbatim.
pub open spec fn parse_iarr(data: Seq<u8>, pos: int) -> Result<(Seq<u8>, int), Error> {
    match parse_count(data, pos) {
        Err(e) => Err(e),
        Ok((n, p)) => if p + 4 * n > data.len() {
            Err(Error::UnexpectedEof)
        } else {
            Ok((data.subrange(p, p + 4 * n), p + 4 * n))
        },
    }
}

/// Reads a 64-bit integer array payload: a count validated against the
/// remaining buffer, then the raw big-endian bytes kept verbatim.
pub open spec fn parse_larr(data: Seq<u8>, pos: int) -> Result<(Seq<u8>, int), Error> {
    match parse_count(data, pos) {
        Err(e) => Err(e),
        Ok((n, p)) => if p + 8 * n > data.len() {
            Err(Error::UnexpectedEof)
        } else {
            Ok((data.subrange(p, p + 8 * n), p + 8 * n))
        },
    }
}

/// Reads `n` 8-bit list elements.
pub open spec fn parse_elems_i8(data: Seq<u8>, pos: int, n: int, acc: Seq<i8>) -> Result<
    (Seq<i8>, int),
    Error,
>
    decreases data.len() - pos,
{
    if n <= 0 {
        Ok((acc, pos))
    } else if pos + 1 > data.len() {
        Err(Error::UnexpectedEof)
    } else {
        parse_elems_i8(data, pos + 1, n - 1, acc.push(i8_of(data[pos])))
    }
}

/// Reads `n` 16-bit list elements.
pub open spec fn parse_elems_i16(data: Seq<u8>, pos: int, n: int, acc: Seq<i16>) -> Result<
    (Seq<i16>, int),
    Error,
>
    decreases data.len() - pos,
{
    if n <= 0 {
        Ok((acc, pos))
    } else if pos + 2 > data.len() {
        Err(Error::UnexpectedEof)
    } else {
        parse_elems_i16(data, pos + 2, n - 1, acc.push(i16_of(be_u16(data[pos], data[pos + 1]))))
    }
}

/// Reads `n` 32-bit float list elements as raw bit patterns.
pub open spec fn parse_elems_f32(data: Seq<u8>, pos: int, n: int, acc: Seq<u32>) -> Result<
    (Seq<u32>, int),
    Error,
>
    decreases data.len() - pos,
{
    if n <= 0 {
        Ok((acc, pos))
    } else if pos + 4 > data.len() {
        Err(Error::UnexpectedEof)
    } else {
        parse_elems_f32(
            data,
            pos + 4,
            n - 1,
            acc.push(be_u32(data[pos], data[pos + 1], data[pos + 2], data[pos + 3])),
        )
    }
}

/// Reads `n` 64-bit float list elements as raw bit patterns.
pub open spec fn parse_elems_f64(data: Seq<u8>, pos: int, n: int, acc: Seq<u64>) -> Result<
    (Seq<u64>, int),
    Error,
>
    decreases data.len() - pos,
{
    if n <= 0 {
        Ok((acc, pos))
    } else if pos + 8 > data.len() {
        Err(Error::UnexpectedEof)
    } else {
        parse_elems_f64(
            data,
            pos + 8,
            n - 1,
            acc.push(
                be_u64(
                    data[pos],
                    data[pos + 1],
                    data[pos + 2],
                    data[pos + 3],
                    data[pos + 4],
                    data[pos + 5],
                    data[pos + 6],
                    data[pos + 7],
                ),
            ),
        )
    }
}

/// Reads `n` string list elements.
pub open spec fn parse_elems_str(data: Seq<u8>, pos: int, n: int, acc: Seq<Seq<u8>>) -> Result<
    (Seq<Seq<u8>>, int),
    Error,
>
    decreases data.len() - pos,
{
    if n <= 0 {
        Ok((acc, pos))
    } else {
        match parse_str(data, pos) {
            Err(e) => Err(e),
            Ok((s, p2)) => parse_elems_str(data, p2, n - 1, acc.push(s)),
        }
    }
}

/// Reads `n` byte-array list elements.
pub open spec fn parse_elems_barr(data: Seq<u8>, pos: int, n: int, acc: Seq<Seq<u8>>) -> Result<
    (Seq<Seq<u8>>, int),
    Error,
>
    decreases data.len() - pos,
{
    if n <= 0 {
        Ok((acc, pos))
    } else {
        match parse_barr(data, pos) {
            Err(e) => Err(e),
            Ok((s, p2)) => parse_elems_barr(data, p2, n - 1, acc.push(s)),
        }
    }
}

/// Reads `n` 32-bit integer array list elements.
pub open spec fn parse_elems_iarr(data: Seq<u8>, pos: int, n: int, acc: Seq<Seq<u8>>) -> Result<
    (Seq<Seq<u8>>, int),
    Error,
>
    decreases data.len() - pos,
{
    if n <= 0 {
        Ok((acc, pos))
    } else {
        match parse_iarr(data, pos) {
            Err(e) => Err(e),
            Ok((s, p2)) => parse_elems_iarr(data, p2, n - 1, acc.push(s)),
        }
    }
}

/// Reads `n` 64-bit integer array list elements.
pub open spec fn parse_elems_larr(data: Seq<u8>, pos: int, n: int, acc: Seq<Seq<u8>>) -> Result<
    (Seq<Seq<u8>>, int),
    Error,
>
    decreases data.len() - pos,
{
    if n <= 0 {
        Ok((acc, pos))
    } else {
        match parse_larr(data, pos) {
            Err(e) => Err(e),
            Ok((s, p2)) => parse_elems_larr(data, p2, n - 1, acc.push(s)),
        }
    }
}

/// Reads `n` list-of-list elements, each a full list payload one level
/// deeper.
pub open spec fn parse_elems_list(
    data: Seq<u8>,
    pos: int,
    n: int,
    depth: int,
    acc: Seq<ListM>,
) -> Result<(Seq<ListM>, int), Error>
    decreases data.len() - pos, 3int, n,
{
    if n <= 0 {
        Ok((acc, pos))
    } else {
        match parse_list_payload(data, pos, depth) {
            Err(e) => Err(e),
            Ok((l, p2)) => if pos < p2 <= data.len() {
                parse_elems_list(data, p2, n - 1, depth, acc.push(l))
            } else {
                // a list payload always consumes at least its five header
                // bytes, so this arm is never taken
                Err(Error::UnexpectedEof)
            },
        }
    }
}

/// Reads `n` compound list elements, each a compound body one level deeper.
pub open spec fn parse_elems_comp(
    data: Seq<u8>,
    pos: int,
    n: int,
    depth: int,
    acc: Seq<Seq<(Seq<u8>, TagM)>>,
) -> Result<(Seq<Seq<(Seq<u8>, TagM)>>, int), Error>
    decreases data.len() - pos, 3int, n,
{
    if n <= 0 {
        Ok((acc, pos))
    } else {
        match parse_entries(data, pos, depth, seq![]) {
            Err(e) => Err(e),
            Ok((es, p2)) => if pos < p2 <= data.len() {
                parse_elems_comp(data, p2, n - 1, depth, acc.push(es))
            } else {
                // a compound body always consumes at least its end byte, so
                // this arm is never taken
                Err(Error::UnexpectedEof)
            },
        }
    }
}

/// Reads a list payload at `depth`: the element-type byte, the count, then
/// the elements. A negative count can never be satisfied by the remaining
/// buffer; a zero count is accepted verbatim for any declared type; a
/// nonzero count with the end sentinel or an unknown type is rejected.
pub open spec fn parse_list_payload(data: Seq<u8>, pos: int, depth: int) -> Result<
    (ListM, int),
    Error,
>
    decreases data.len() - pos, 1int, 0int,
{
    if pos + 5 > data.len() {
        Err(Error::UnexpectedEof)
    } else {
        let t = data[pos];
        let c = be_u32(data[pos + 1], data[pos + 2], data[pos + 3], data[pos + 4]);
        if c > 0x7FFF_FFFF {
            Err(Error::UnexpectedEof)
        } else {
            let n = c as int;
            let p = pos + 5;
            if n == 0 {
                Ok((ListM::Empty(t), p))
            } else if t == 0 || t > 12 {
                Err(Error::InvalidListType)
            } else if t == 1 {
                match parse_elems_i8(data, p, n, seq![]) {
                    Err(e) => Err(e),
                    Ok((vs, p2)) => Ok((ListM::Byte(vs), p2)),
                }
            } else if t == 2 {
                match parse_elems_i16(data, p, n, seq![]) {
                    Err(e) => Err(e),
                    Ok((vs, p2)) => Ok((ListM::Short(vs), p2)),
                }
            } else if t == 3 {
                if p + 4 * n > data.len() {
                    Err(Error::UnexpectedEof)
                } else {
                    Ok((ListM::Int(data.subrange(p, p + 4 * n)), p + 4 * n))
                }
            } else if t == 4 {
                if p + 8 * n > data.len() {
                    Err(Error::UnexpectedEof)
                } else {
                    Ok((ListM::Long(data.subrange(p, p + 8 * n)), p + 8 * n))
                }
            } else if t == 5 {
                match parse_elems_f32(data, p, n, seq![]) {
                    Err(e) => Err(e),
                    Ok((vs, p2)) => Ok((ListM::Float(vs), p2)),
                }
            } else if t == 6 {
                match parse_elems_f64(data, p, n, seq![]) {
                    Err(e) => Err(e),
                    Ok((vs, p2)) => Ok((ListM::Double(vs), p2)),
                }
            } else if t == 7 {
                match parse_elems_barr(data, p, n, seq![]) {
                    Err(e) => Err(e),
                    Ok((vs, p2)) => Ok((ListM::ByteArray(vs), p2)),
                }
            } else if t == 8 {
                match parse_elems_str(data, p, n, seq![]) {
                    Err(e) => Err(e),
                    Ok((vs, p2)) => Ok((ListM::String(vs), p2)),
                }
            } else if t == 9 {
                if depth >= 512 {
                    Err(Error::MaxDepthExceeded)
                } else {
                    match parse_elems_list(data, p, n, depth + 1, seq![]) {
                        Err(e) => Err(e),
                        Ok((vs, p2)) => Ok((ListM::List(vs), p2)),
                    }
                }
            } else if t == 10 {
                if depth >= 512 {
                    Err(Error::MaxDepthExceeded)
                } else {
                    match parse_elems_comp(data, p, n, depth + 1, seq![]) {
                        Err(e) => Err(e),
                        Ok((vs, p2)) => Ok((ListM::Compound(vs), p2)),
                    }
                }
            } else if t == 11 {
                match parse_elems_iarr(data, p, n, seq![]) {
                    Err(e) => Err(e),
                    Ok((vs, p2)) => Ok((ListM::IntArray(vs), p2)),
                }
            } else {
                match parse_elems_larr(data, p, n, seq![]) {
                    Err(e) => Err(e),
                    Ok((vs, p2)) => Ok((ListM::LongArray(vs), p2)),
                }
            }
        }
    }
}

/// Reads the payload of a value whose discriminant byte is `t`, inside a
/// container at `depth`; entering a nested list or compound one level past
/// the recursion bound fails rather than risking stack exhaustion.
pub open spec fn parse_payload(data: Seq<u8>, pos: int, t: u8, depth: int) -> Result<
    (TagM, int),
    Error,
>
    decreases data.len() - pos, 2int, 0int,
{
    if t == 1 {
        if pos + 1 > data.len() {
            Err(Error::UnexpectedEof)
        } else {
            Ok((TagM::Byte(i8_of(data[pos])), pos + 1))
        }
    } else if t == 2 {
        if pos + 2 > data.len() {
            Err(Error::UnexpectedEof)
        } else {
            Ok((TagM::Short(i16_of(be_u16(data[pos], data[pos + 1]))), pos + 2))
        }
    } else if t == 3 {
        if pos + 4 > data.len() {
            Err(Error::UnexpectedEof)
        } else {
            Ok(
                (
                    TagM::Int(
                        i32_of(be_u32(data[pos], data[pos + 1], data[pos + 2], data[pos + 3])),
                    ),
                    pos + 4,
                ),
            )
        }
    } else if t == 4 {
        if pos + 8 > data.len() {
            Err(Error::UnexpectedEof)
        } else {
            Ok(
                (
                    TagM::Long(
                        i64_of(
                            be_u64(
                                data[pos],
                                data[pos + 1],
                                data[pos + 2],
                                data[pos + 3],
                                data[pos + 4],
                                data[pos + 5],
                                data[pos + 6],
                                data[pos + 7],
                            ),
                        ),
                    ),
                    pos + 8,
                ),
            )
        }
    } else if t == 5 {
        if pos + 4 > data.len() {
            Err(Error::UnexpectedEof)
        } else {
            Ok(
                (
                    TagM::Float(be_u32(data[pos], data[pos + 1], data[pos + 2], data[pos + 3])),
                    pos + 4,
                ),
            )
        }
    } else if t == 6 {
        if pos + 8 > data.len() {
            Err(Error::UnexpectedEof)
        } else {
            Ok(
                (
                    TagM::Double(
                        be_u64(
                            data[pos],
                            data[pos + 1],
                            data[pos + 2],
                            data[pos + 3],
                            data[pos + 4],
                            data[pos + 5],
                            data[pos + 6],
                            data[pos + 7],
                        ),
                    ),
                    pos + 8,
                ),
            )
        }
    } else if t == 7 {
        match parse_barr(data, pos) {
            Err(e) => Err(e),
            Ok((b, p2)) => Ok((TagM::ByteArray(b), p2)),
        }
    } else if t == 8 {
        match parse_str(data, pos) {
            Err(e) => Err(e),
            Ok((s, p2)) => Ok((TagM::String(s), p2)),
        }
    } else if t == 9 {
        if depth >= 512 {
            Err(Error::MaxDepthExceeded)
        } else {
            match parse_list_payload(data, pos, depth + 1) {
                Err(e) => Err(e),
                Ok((l, p2)) => Ok((TagM::List(l), p2)),
            }
        }
    } else if t == 10 {
        if depth >= 512 {
            Err(Error::MaxDepthExceeded)
        } else {
            match parse_entries(data, pos, depth + 1, seq![]) {
                Err(e) => Err(e),
                Ok((es, p2)) => Ok((TagM::Compound(es), p2)),
            }
        }
    } else if t == 11 {
        match parse_iarr(data, pos) {
            Err(e) => Err(e),
            Ok((b, p2)) => Ok((TagM::IntArray(b), p2)),
        }
    } else if t == 12 {
        match parse_larr(data, pos) {
            Err(e) => Err(e),
            Ok((b, p2)) => Ok((TagM::LongArray(b), p2)),
        }
    } else {
        Err(Error::InvalidTagType(t))
    }
}

/// Reads a compound body at `depth`: repeated discriminant/name/payload
/// entries, in order, until the end byte, which is consumed.
pub open spec fn parse_entries(
    data: Seq<u8>,
    pos: int,
    depth: int,
    acc: Seq<(Seq<u8>, TagM)>,
) -> Result<(Seq<(Seq<u8>, TagM)>, int), Error>
    decreases data.len() - pos, 0int, 0int,
{
    if pos + 1 > data.len() {
        Err(Error::UnexpectedEof)
    } else {
        let t = data[pos];
        if t == 0 {
            Ok((acc, pos + 1))
        } else if !tag_known(t) {
            Err(Error::InvalidTagType(t))
        } else {
            match parse_str(data, pos + 1) {
                Err(e) => Err(e),
                Ok((name, p1)) => match parse_payload(data, p1, t, depth) {
                    Err(e) => Err(e),
                    Ok((tag, p2)) => if pos < p2 <= data.len() {
                        parse_entries(data, p2, depth, acc.push((name, tag)))
                    } else {
                        // every payload consumes at least one byte, so this
                        // arm is never taken
                        Err(Error::UnexpectedEof)
                    },
                },
            }
        }
    }
}

/// Reads a whole document: one discriminant byte, which is either the end
/// sentinel (an absent document), the compound discriminant followed by the
/// root name and the root compound's body, or an error.
pub open spec fn parse_document(data: Seq<u8>) -> Result<(OptNbtM, int), Error> {
    if data.len() < 1 {
        Err(Error::UnexpectedEof)
    } else if data[0] == 0 {
        Ok((OptNbtM::Absent, 1))
    } else if data[0] != 10 {
        Err(Error::InvalidRootType(data[0]))
    } else {
        match parse_str(data, 1) {
            Err(e) => Err(e),
            Ok((name, p1)) => match parse_entries(data, p1, 1, seq![]) {
                Err(e) => Err(e),
                Ok((es, p2)) => Ok((OptNbtM::Present(NbtM { name, entries: es }), p2)),
            },
        }
    }
}

} // verus!

use vstd::prelude::verus;

verus! {

/// Structural bounds that every decoded value satisfies and that the writer
/// needs: string lengths fit the 16-bit prefix, counts fit the signed
/// 32-bit count field, and raw arrays hold whole elements.
pub open spec fn wf_tag(m: TagM) -> bool
    decreases m,
{
    match m {
        TagM::Byte(_) => true,
        TagM::Short(_) => true,
        TagM::Int(_) => true,
        TagM::Long(_) => true,
        TagM::Float(_) => true,
        TagM::Double(_) => true,
        TagM::ByteArray(b) => b.len() <= 0x7FFF_FFFF,
        TagM::String(s) => s.len() <= 0xFFFF,
        TagM::List(l) => wf_list(l),
        TagM::Compound(es) => wf_entries(es),
        TagM::IntArray(b) => b.len() % 4 == 0 && b.len() / 4 <= 0x7FFF_FFFF,
        TagM::LongArray(b) => b.len() % 8 == 0 && b.len() / 8 <= 0x7FFF_FFFF,
    }
}

/// Structural bounds on a list value.
pub open spec fn wf_list(l: ListM) -> bool
    decreases l,
{
    match l {
        ListM::Empty(_) => true,
        ListM::Byte(vs) => vs.len() <= 0x7FFF_FFFF,
        ListM::Short(vs) => vs.len() <= 0x7FFF_FFFF,
        ListM::Int(b) => b.len() % 4 == 0 && b.len() / 4 <= 0x7FFF_FFFF,
        ListM::Long(b) => b.len() % 8 == 0 && b.len() / 8 <= 0x7FFF_FFFF,
        ListM::Float(vs) => vs.len() <= 0x7FFF_FFFF,
        ListM::Double(vs) => vs.len() <= 0x7FFF_FFFF,
        ListM::ByteArray(vs) => vs.len() <= 0x7FFF_FFFF && (forall|i: int|
            0 <= i < vs.len() ==> #[trigger] vs[i].len() <= 0x7FFF_FFFF),
        ListM::String(vs) => vs.len() <= 0x7FFF_FFFF && (forall|i: int|
            0 <= i < vs.len() ==> #[trigger] vs[i].len() <= 0xFFFF),
        ListM::List(ls) => ls.len() <= 0x7FFF_FFFF && (forall|i: int|
            0 <= i < ls.len() ==> wf_list(#[trigger] ls[i])),
        ListM::Compound(cs) => cs.len() <= 0x7FFF_FFFF && (forall|i: int|
            0 <= i < cs.len() ==> wf_entries(#[trigger] cs[i])),
        ListM::IntArray(vs) => vs.len() <= 0x7FFF_FFFF && (forall|i: int|
            0 <= i < vs.len() ==> (#[trigger] vs[i].len()) % 4 == 0 && vs[i].len() / 4
                <= 0x7FFF_FFFF),
        ListM::LongArray(vs) => vs.len() <= 0x7FFF_FFFF && (forall|i: int|
            0 <= i < vs.len() ==> (#[trigger] vs[i].len()) % 8 == 0 && vs[i].len() / 8
                <= 0x7FFF_FFFF),
    }
}

/// Structural bounds on a compound's pairs.
pub open spec fn wf_entries(es: Seq<(Seq<u8>, TagM)>) -> bool
    decreases es,
{
    forall|i: int|
        0 <= i < es.len() ==> (#[trigger] es[i]).0.len() <= 0xFFFF && wf_tag(es[i].1)
}

/// Structural bounds on a whole document.
pub open spec fn wf_document(o: OptNbtM) -> bool {
    match o {
        OptNbtM::Absent => true,
        OptNbtM::Present(n) => n.name.len() <= 0xFFFF && wf_entries(n.entries),
    }
}

} // verus!

verus! {

/// A parsed string field re-encodes to exactly the consumed bytes.
pub proof fn lemma_str_rt(data: Seq<u8>, pos: int)
    requires
        0 <= pos,
        parse_str(data, pos) is Ok,
    ensures
        ({
            let (s, p2) = parse_str(data, pos)->Ok_0;
            &&& pos + 2 <= p2 <= data.len()
            &&& p2 == pos + 2 + s.len()
            &&& s.len() <= 0xFFFF
            &&& valid_mutf8(s)
            &&& enc_str(s) == data.subrange(pos, p2)
        }),
{
    let (s, p2) = parse_str(data, pos)->Ok_0;
    let b0 = data[pos];
    let b1 = data[pos + 1];
    crate::wire::lemma_u16_enc_of_be(b0, b1);
    assert(s.len() == be_u16(b0, b1) as int);
    assert(s.len() as u16 == be_u16(b0, b1)) by {
        assert(be_u16(b0, b1) <= 0xFFFF);
    }
    assert(enc_str(s) =~= data.subrange(pos, p2));
}

/// A parsed element count re-encodes to exactly the consumed bytes.
pub proof fn lemma_count_rt(data: Seq<u8>, pos: int)
    requires
        0 <= pos,
        parse_count(data, pos) is Ok,
    ensures
        ({
            let (n, p2) = parse_count(data, pos)->Ok_0;
            &&& p2 == pos + 4
            &&& p2 <= data.len()
            &&& 0 <= n <= 0x7FFF_FFFF
            &&& enc_u32(n as u32) == data.subrange(pos, p2)
        }),
{
    let (n, p2) = parse_count(data, pos)->Ok_0;
    crate::wire::lemma_u32_enc_of_be(data[pos], data[pos + 1], data[pos + 2], data[pos + 3]);
    assert(n as u32 == be_u32(data[pos], data[pos + 1], data[pos + 2], data[pos + 3]));
    assert(enc_u32(n as u32) =~= data.subrange(pos, p2));
}

/// A parsed byte array payload re-encodes to exactly the consumed bytes.
pub proof fn lemma_barr_rt(data: Seq<u8>, pos: int)
    requires
        0 <= pos,
        parse_barr(data, pos) is Ok,
    ensures
        ({
            let (b, p2) = parse_barr(data, pos)->Ok_0;
            &&& pos + 4 <= p2 <= data.len()
            &&& b.len() <= 0x7FFF_FFFF
            &&& enc_barr(b) == data.subrange(pos, p2)
        }),
{
    let (b, p2) = parse_barr(data, pos)->Ok_0;
    lemma_count_rt(data, pos);
    let (n, p) = parse_count(data, pos)->Ok_0;
    assert(b.len() == n);
    assert(enc_barr(b) =~= data.subrange(pos, p2));
}

/// A parsed 32-bit integer array payload re-encodes to exactly the consumed
/// bytes.
pub proof fn lemma_iarr_rt(data: Seq<u8>, pos: int)
    requires
        0 <= pos,
        parse_iarr(data, pos) is Ok,
    ensures
        ({
            let (b, p2) = parse_iarr(data, pos)->Ok_0;
            &&& pos + 4 <= p2 <= data.len()
            &&& b.len() % 4 == 0
            &&& b.len() / 4 <= 0x7FFF_FFFF
            &&& enc_iarr(b) == data.subrange(pos, p2)
        }),
{
    let (b, p2) = parse_iarr(data, pos)->Ok_0;
    lemma_count_rt(data, pos);
    let (n, p) = parse_count(data, pos)->Ok_0;
    assert(b.len() == 4 * n);
    assert(b.len() / 4 == n);
    assert(enc_iarr(b) =~= data.subrange(pos, p2));
}

/// A parsed 64-bit integer array payload re-encodes to exactly the consumed
/// bytes.
pub proof fn lemma_larr_rt(data: Seq<u8>, pos: int)
    requires
        0 <= pos,
        parse_larr(data, pos) is Ok,
    ensures
        ({
            let (b, p2) = parse_larr(data, pos)->Ok_0;
            &&& pos + 4 <= p2 <= data.len()
            &&& b.len() % 8 == 0
            &&& b.len() / 8 <= 0x7FFF_FFFF
            &&& enc_larr(b) == data.subrange(pos, p2)
        }),
{
    let (b, p2) = parse_larr(data, pos)->Ok_0;
    lemma_count_rt(data, pos);
    let (n, p) = parse_count(data, pos)->Ok_0;
    assert(b.len() == 8 * n);
    assert(b.len() / 8 == n);
    assert(enc_larr(b) =~= data.subrange(pos, p2));
}


/// Parsed 8-bit list elements re-encode to exactly the consumed bytes.
pub proof fn lemma_elems_i8_rt(data: Seq<u8>, pos: int, n: int, acc: Seq<i8>)
    requires
        0 <= pos <= data.len(),
        parse_elems_i8(data, pos, n, acc) is Ok,
    ensures
        ({
            let (vs, p2) = parse_elems_i8(data, pos, n, acc)->Ok_0;
            &&& pos <= p2 <= data.len()
            &&& vs.len() == acc.len() + (if n > 0 { n } else { 0 })
            &&& vs.take(acc.len() as int) == acc
            &&& enc_i8s(vs.skip(acc.len() as int)) == data.subrange(pos, p2)
        }),
    decreases data.len() - pos,
{
    let (vs, p2) = parse_elems_i8(data, pos, n, acc)->Ok_0;
    let k = acc.len() as int;
    if n <= 0 {
        assert(vs.take(k) =~= acc);
        assert(vs.skip(k) =~= Seq::<i8>::empty());
        assert(enc_i8s(vs.skip(k)) =~= data.subrange(pos, pos));
    } else {
        let e = i8_of(data[pos]);
        let p1 = pos + 1;
        crate::wire::lemma_i8_round_trip(data[pos]);
        assert(seq![u8_of_i8(e)] =~= data.subrange(pos, p1));
        lemma_elems_i8_rt(data, p1, n - 1, acc.push(e));
        let (vs2, q2) = parse_elems_i8(data, p1, n - 1, acc.push(e))->Ok_0;
        assert(vs2 == vs && q2 == p2);
        assert(vs.take(k + 1) == acc.push(e));
        assert(vs.take(k) =~= vs.take(k + 1).take(k));
        assert(vs.take(k + 1).take(k) =~= acc);
        assert(vs[k] == vs.take(k + 1)[k]);
        assert(vs[k] == e);
        assert(vs.skip(k).len() > 0 && vs.skip(k)[0] == e);
        assert(vs.skip(k).drop_first() =~= vs.skip(k + 1));
        assert(enc_i8s(vs.skip(k)) == seq![u8_of_i8(e)] + enc_i8s(vs.skip(k + 1)));
        assert(seq![u8_of_i8(e)] + data.subrange(p1, p2) =~= data.subrange(pos, p2));
        assert(enc_i8s(vs.skip(k)) =~= data.subrange(pos, p2));
    }
}


/// Parsed 16-bit list elements re-encode to exactly the consumed bytes.
pub proof fn lemma_elems_i16_rt(data: Seq<u8>, pos: int, n: int, acc: Seq<i16>)
    requires
        0 <= pos <= data.len(),
        parse_elems_i16(data, pos, n, acc) is Ok,
    ensures
        ({
            let (vs, p2) = parse_elems_i16(data, pos, n, acc)->Ok_0;
            &&& pos <= p2 <= data.len()
            &&& vs.len() == acc.len() + (if n > 0 { n } else { 0 })
            &&& vs.take(acc.len() as int) == acc
            &&& enc_i16s(vs.skip(acc.len() as int)) == data.subrange(pos, p2)
        }),
    decreases data.len() - pos,
{
    let (vs, p2) = parse_elems_i16(data, pos, n, acc)->Ok_0;
    let k = acc.len() as int;
    if n <= 0 {
        assert(vs.take(k) =~= acc);
        assert(vs.skip(k) =~= Seq::<i16>::empty());
        assert(enc_i16s(vs.skip(k)) =~= data.subrange(pos, pos));
    } else {
        let e = i16_of(be_u16(data[pos], data[pos + 1]));
        let p1 = pos + 2;
        crate::wire::lemma_i16_round_trip(be_u16(data[pos], data[pos + 1]));
        crate::wire::lemma_u16_enc_of_be(data[pos], data[pos + 1]);
        assert(enc_u16(u16_of_i16(e)) =~= data.subrange(pos, p1));
        lemma_elems_i16_rt(data, p1, n - 1, acc.push(e));
        let (vs2, q2) = parse_elems_i16(data, p1, n - 1, acc.push(e))->Ok_0;
        assert(vs2 == vs && q2 == p2);
        assert(vs.take(k + 1) == acc.push(e));
        assert(vs.take(k) =~= vs.take(k + 1).take(k));
        assert(vs.take(k + 1).take(k) =~= acc);
        assert(vs[k] == vs.take(k + 1)[k]);
        assert(vs[k] == e);
        assert(vs.skip(k).len() > 0 && vs.skip(k)[0] == e);
        assert(vs.skip(k).drop_first() =~= vs.skip(k + 1));
        assert(enc_i16s(vs.skip(k)) == enc_u16(u16_of_i16(e)) + enc_i16s(vs.skip(k + 1)));
        assert(enc_u16(u16_of_i16(e)) + data.subrange(p1, p2) =~= data.subrange(pos, p2));
        assert(enc_i16s(vs.skip(k)) =~= data.subrange(pos, p2));
    }
}


/// Parsed 32-bit float list elements re-encode to exactly the consumed bytes.
pub proof fn lemma_elems_f32_rt(data: Seq<u8>, pos: int, n: int, acc: Seq<u32>)
    requires
        0 <= pos <= data.len(),
        parse_elems_f32(data, pos, n, acc) is Ok,
    ensures
        ({
            let (vs, p2) = parse_elems_f32(data, pos, n, acc)->Ok_0;
            &&& pos <= p2 <= data.len()
            &&& vs.len() == acc.len() + (if n > 0 { n } else { 0 })
            &&& vs.take(acc.len() as int) == acc
            &&& enc_f32s(vs.skip(acc.len() as int)) == data.subrange(pos, p2)
        }),
    decreases data.len() - pos,
{
    let (vs, p2) = parse_elems_f32(data, pos, n, acc)->Ok_0;
    let k = acc.len() as int;
    if n <= 0 {
        assert(vs.take(k) =~= acc);
        assert(vs.skip(k) =~= Seq::<u32>::empty());
        assert(enc_f32s(vs.skip(k)) =~= data.subrange(pos, pos));
    } else {
        let e = be_u32(data[pos], data[pos + 1], data[pos + 2], data[pos + 3]);
        let p1 = pos + 4;
        crate::wire::lemma_u32_enc_of_be(data[pos], data[pos + 1], data[pos + 2], data[pos + 3]);
        assert(enc_u32(e) =~= data.subrange(pos, p1));
        lemma_elems_f32_rt(data, p1, n - 1, acc.push(e));
        let (vs2, q2) = parse_elems_f32(data, p1, n - 1, acc.push(e))->Ok_0;
        assert(vs2 == vs && q2 == p2);
        assert(vs.take(k + 1) == acc.push(e));
        assert(vs.take(k) =~= vs.take(k + 1).take(k));
        assert(vs.take(k + 1).take(k) =~= acc);
        assert(vs[k] == vs.take(k + 1)[k]);
        assert(vs[k] == e);
        assert(vs.skip(k).len() > 0 && vs.skip(k)[0] == e);
        assert(vs.skip(k).drop_first() =~= vs.skip(k + 1));
        assert(enc_f32s(vs.skip(k)) == enc_u32(e) + enc_f32s(vs.skip(k + 1)));
        assert(enc_u32(e) + data.subrange(p1, p2) =~= data.subrange(pos, p2));
        assert(enc_f32s(vs.skip(k)) =~= data.subrange(pos, p2));
    }
}


/// Parsed 64-bit float list elements re-encode to exactly the consumed bytes.
pub proof fn lemma_elems_f64_rt(data: Seq<u8>, pos: int, n: int, acc: Seq<u64>)
    requires
        0 <= pos <= data.len(),
        parse_elems_f64(data, pos, n, acc) is Ok,
    ensures
        ({
            let (vs, p2) = parse_elems_f64(data, pos, n, acc)->Ok_0;
            &&& pos <= p2 <= data.len()
            &&& vs.len() == acc.len() + (if n > 0 { n } else { 0 })
            &&& vs.take(acc.len() as int) == acc
            &&& enc_f64s(vs.skip(acc.len() as int)) == data.subrange(pos, p2)
        }),
    decreases data.len() - pos,
{
    let (vs, p2) = parse_elems_f64(data, pos, n, acc)->Ok_0;
    let k = acc.len() as int;
    if n <= 0 {
        assert(vs.take(k) =~= acc);
        assert(vs.skip(k) =~= Seq::<u64>::empty());
        assert(enc_f64s(vs.skip(k)) =~= data.subrange(pos, pos));
    } else {
        let e = be_u64(
            data[pos],
            data[pos + 1],
            data[pos + 2],
            data[pos + 3],
            data[pos + 4],
            data[pos + 5],
            data[pos + 6],
            data[pos + 7],
        );
        let p1 = pos + 8;
        crate::wire::lemma_u64_enc_of_be(
            data[pos],
            data[pos + 1],
            data[pos + 2],
            data[pos + 3],
            data[pos + 4],
            data[pos + 5],
            data[pos + 6],
            data[pos + 7],
        );
        assert(enc_u64(e) =~= data.subrange(pos, p1));
        lemma_elems_f64_rt(data, p1, n - 1, acc.push(e));
        let (vs2, q2) = parse_elems_f64(data, p1, n - 1, acc.push(e))->Ok_0;
        assert(vs2 == vs && q2 == p2);
        assert(vs.take(k + 1) == acc.push(e));
        assert(vs.take(k) =~= vs.take(k + 1).take(k));
        assert(vs.take(k + 1).take(k) =~= acc);
        assert(vs[k] == vs.take(k + 1)[k]);
        assert(vs[k] == e);
        assert(vs.skip(k).len() > 0 && vs.skip(k)[0] == e);
        assert(vs.skip(k).drop_first() =~= vs.skip(k + 1));
        assert(enc_f64s(vs.skip(k)) == enc_u64(e) + enc_f64s(vs.skip(k + 1)));
        assert(enc_u64(e) + data.subrange(p1, p2) =~= data.subrange(pos, p2));
        assert(enc_f64s(vs.skip(k)) =~= data.subrange(pos, p2));
    }
}


/// Parsed string list elements re-encode to exactly the consumed bytes.
pub proof fn lemma_elems_str_rt(data: Seq<u8>, pos: int, n: int, acc: Seq<Seq<u8>>)
    requires
        0 <= pos <= data.len(),
        parse_elems_str(data, pos, n, acc) is Ok,
    ensures
        ({
            let (vs, p2) = parse_elems_str(data, pos, n, acc)->Ok_0;
            &&& pos <= p2 <= data.len()
            &&& vs.len() == acc.len() + (if n > 0 { n } else { 0 })
            &&& vs.take(acc.len() as int) == acc
            &&& enc_strs(vs.skip(acc.len() as int)) == data.subrange(pos, p2)
            &&& (forall|i: int| acc.len() <= i < vs.len() ==> (#[trigger] vs[i]).len() <= 0xFFFF && valid_mutf8(vs[i]))
        }),
    decreases data.len() - pos,
{
    let (vs, p2) = parse_elems_str(data, pos, n, acc)->Ok_0;
    let k = acc.len() as int;
    if n <= 0 {
        assert(vs.take(k) =~= acc);
        assert(vs.skip(k) =~= Seq::<Seq<u8>>::empty());
        assert(enc_strs(vs.skip(k)) =~= data.subrange(pos, pos));
    } else {
        lemma_str_rt(data, pos);
        let (e, p1) = parse_str(data, pos)->Ok_0;
        lemma_elems_str_rt(data, p1, n - 1, acc.push(e));
        let (vs2, q2) = parse_elems_str(data, p1, n - 1, acc.push(e))->Ok_0;
        assert(vs2 == vs && q2 == p2);
        assert(vs.take(k + 1) == acc.push(e));
        assert(vs.take(k) =~= vs.take(k + 1).take(k));
        assert(vs.take(k + 1).take(k) =~= acc);
        assert(vs[k] == vs.take(k + 1)[k]);
        assert(vs[k] == e);
        assert(vs.skip(k).len() > 0 && vs.skip(k)[0] == e);
        assert(vs.skip(k).drop_first() =~= vs.skip(k + 1));
        assert(enc_strs(vs.skip(k)) == enc_str(e) + enc_strs(vs.skip(k + 1)));
        assert(enc_str(e) + data.subrange(p1, p2) =~= data.subrange(pos, p2));
        assert(enc_strs(vs.skip(k)) =~= data.subrange(pos, p2));
    }
}


/// Parsed byte-array list elements re-encode to exactly the consumed bytes.
pub proof fn lemma_elems_barr_rt(data: Seq<u8>, pos: int, n: int, acc: Seq<Seq<u8>>)
    requires
        0 <= pos <= data.len(),
        parse_elems_barr(data, pos, n, acc) is Ok,
    ensures
        ({
            let (vs, p2) = parse_elems_barr(data, pos, n, acc)->Ok_0;
            &&& pos <= p2 <= data.len()
            &&& vs.len() == acc.len() + (if n > 0 { n } else { 0 })
            &&& vs.take(acc.len() as int) == acc
            &&& enc_barrs(vs.skip(acc.len() as int)) == data.subrange(pos, p2)
            &&& (forall|i: int| acc.len() <= i < vs.len() ==> (#[trigger] vs[i]).len() <= 0x7FFF_FFFF)
        }),
    decreases data.len() - pos,
{
    let (vs, p2) = parse_elems_barr(data, pos, n, acc)->Ok_0;
    let k = acc.len() as int;
    if n <= 0 {
        assert(vs.take(k) =~= acc);
        assert(vs.skip(k) =~= Seq::<Seq<u8>>::empty());
        assert(enc_barrs(vs.skip(k)) =~= data.subrange(pos, pos));
    } else {
        lemma_barr_rt(data, pos);
        let (e, p1) = parse_barr(data, pos)->Ok_0;
        lemma_elems_barr_rt(data, p1, n - 1, acc.push(e));
        let (vs2, q2) = parse_elems_barr(data, p1, n - 1, acc.push(e))->Ok_0;
        assert(vs2 == vs && q2 == p2);
        assert(vs.take(k + 1) == acc.push(e));
        assert(vs.take(k) =~= vs.take(k + 1).take(k));
        assert(vs.take(k + 1).take(k) =~= acc);
        assert(vs[k] == vs.take(k + 1)[k]);
        assert(vs[k] == e);
        assert(vs.skip(k).len() > 0 && vs.skip(k)[0] == e);
        assert(vs.skip(k).drop_first() =~= vs.skip(k + 1));
        assert(enc_barrs(vs.skip(k)) == enc_barr(e) + enc_barrs(vs.skip(k + 1)));
        assert(enc_barr(e) + data.subrange(p1, p2) =~= data.subrange(pos, p2));
        assert(enc_barrs(vs.skip(k)) =~= data.subrange(pos, p2));
    }
}


/// Parsed 32-bit integer array list elements re-encode to exactly the consumed bytes.
pub proof fn lemma_elems_iarr_rt(data: Seq<u8>, pos: int, n: int, acc: Seq<Seq<u8>>)
    requires
        0 <= pos <= data.len(),
        parse_elems_iarr(data, pos, n, acc) is Ok,
    ensures
        ({
            let (vs, p2) = parse_elems_iarr(data, pos, n, acc)->Ok_0;
            &&& pos <= p2 <= data.len()
            &&& vs.len() == acc.len() + (if n > 0 { n } else { 0 })
            &&& vs.take(acc.len() as int) == acc
            &&& enc_iarrs(vs.skip(acc.len() as int)) == data.subrange(pos, p2)
            &&& (forall|i: int| acc.len() <= i < vs.len() ==> (#[trigger] vs[i]).len() % 4 == 0 && vs[i].len() / 4 <= 0x7FFF_FFFF)
        }),
    decreases data.len() - pos,
{
    let (vs, p2) = parse_elems_iarr(data, pos, n, acc)->Ok_0;
    let k = acc.len() as int;
    if n <= 0 {
        assert(vs.take(k) =~= acc);
        assert(vs.skip(k) =~= Seq::<Seq<u8>>::empty());
        assert(enc_iarrs(vs.skip(k)) =~= data.subrange(pos, pos));
    } else {
        lemma_iarr_rt(data, pos);
        let (e, p1) = parse_iarr(data, pos)->Ok_0;
        lemma_elems_iarr_rt(data, p1, n - 1, acc.push(e));
        let (vs2, q2) = parse_elems_iarr(data, p1, n - 1, acc.push(e))->Ok_0;
        assert(vs2 == vs && q2 == p2);
        assert(vs.take(k + 1) == acc.push(e));
        assert(vs.take(k) =~= vs.take(k + 1).take(k));
        assert(vs.take(k + 1).take(k) =~= acc);
        assert(vs[k] == vs.take(k + 1)[k]);
        assert(vs[k] == e);
        assert(vs.skip(k).len() > 0 && vs.skip(k)[0] == e);
        assert(vs.skip(k).drop_first() =~= vs.skip(k + 1));
        assert(enc_iarrs(vs.skip(k)) == enc_iarr(e) + enc_iarrs(vs.skip(k + 1)));
        assert(enc_iarr(e) + data.subrange(p1, p2) =~= data.subrange(pos, p2));
        assert(enc_iarrs(vs.skip(k)) =~= data.subrange(pos, p2));
    }
}


/// Parsed 64-bit integer array list elements re-encode to exactly the consumed bytes.
pub proof fn lemma_elems_larr_rt(data: Seq<u8>, pos: int, n: int, acc: Seq<Seq<u8>>)
    requires
        0 <= pos <= data.len(),
        parse_elems_larr(data, pos, n, acc) is Ok,
    ensures
        ({
            let (vs, p2) = parse_elems_larr(data, pos, n, acc)->Ok_0;
            &&& pos <= p2 <= data.len()
            &&& vs.len() == acc.len() + (if n > 0 { n } else { 0 })
            &&& vs.take(acc.len() as int) == acc
            &&& enc_larrs(vs.skip(acc.len() as int)) == data.subrange(pos, p2)
            &&& (forall|i: int| acc.len() <= i < vs.len() ==> (#[trigger] vs[i]).len() % 8 == 0 && vs[i].len() / 8 <= 0x7FFF_FFFF)
        }),
    decreases data.len() - pos,
{
    let (vs, p2) = parse_elems_larr(data, pos, n, acc)->Ok_0;
    let k = acc.len() as int;
    if n <= 0 {
        assert(vs.take(k) =~= acc);
        assert(vs.skip(k) =~= Seq::<Seq<u8>>::empty());
        assert(enc_larrs(vs.skip(k)) =~= data.subrange(pos, pos));
    } else {
        lemma_larr_rt(data, pos);
        let (e, p1) = parse_larr(data, pos)->Ok_0;
        lemma_elems_larr_rt(data, p1, n - 1, acc.push(e));
        let (vs2, q2) = parse_elems_larr(data, p1, n - 1, acc.push(e))->Ok_0;
        assert(vs2 == vs && q2 == p2);
        assert(vs.take(k + 1) == acc.push(e));
        assert(vs.take(k) =~= vs.take(k + 1).take(k));
        assert(vs.take(k + 1).take(k) =~= acc);
        assert(vs[k] == vs.take(k + 1)[k]);
        assert(vs[k] == e);
        assert(vs.skip(k).len() > 0 && vs.skip(k)[0] == e);
        assert(vs.skip(k).drop_first() =~= vs.skip(k + 1));
        assert(enc_larrs(vs.skip(k)) == enc_larr(e) + enc_larrs(vs.skip(k + 1)));
        assert(enc_larr(e) + data.subrange(p1, p2) =~= data.subrange(pos, p2));
        assert(enc_larrs(vs.skip(k)) =~= data.subrange(pos, p2));
    }
}


} // verus!

verus! {

/// Parsed list-of-list elements re-encode to exactly the consumed bytes.
pub proof fn lemma_elems_list_rt(data: Seq<u8>, pos: int, n: int, depth: int, acc: Seq<ListM>)
    requires
        0 <= pos <= data.len(),
        parse_elems_list(data, pos, n, depth, acc) is Ok,
    ensures
        ({
            let (vs, p2) = parse_elems_list(data, pos, n, depth, acc)->Ok_0;
            &&& pos <= p2 <= data.len()
            &&& vs.len() == acc.len() + (if n > 0 { n } else { 0 })
            &&& vs.take(acc.len() as int) == acc
            &&& enc_list_elems(vs.skip(acc.len() as int)) == data.subrange(pos, p2)
            &&& (forall|i: int| acc.len() <= i < vs.len() ==> wf_list(#[trigger] vs[i]))
        }),
    decreases data.len() - pos, 3int, (if n > 0 { n } else { 0 }),
{
    let (vs, p2) = parse_elems_list(data, pos, n, depth, acc)->Ok_0;
    let k = acc.len() as int;
    if n <= 0 {
        assert(vs.take(k) =~= acc);
        assert(vs.skip(k) =~= Seq::<ListM>::empty());
        assert(enc_list_elems(vs.skip(k)) =~= data.subrange(pos, pos));
    } else {
        lemma_list_payload_rt(data, pos, depth);
        let (e, p1) = parse_list_payload(data, pos, depth)->Ok_0;
        lemma_elems_list_rt(data, p1, n - 1, depth, acc.push(e));
        assert(vs.take(k + 1) == acc.push(e));
        assert(vs.take(k) =~= vs.take(k + 1).take(k));
        assert(vs.take(k + 1).take(k) =~= acc);
        assert(vs[k] == vs.take(k + 1)[k]);
        assert(vs.skip(k).len() > 0 && vs.skip(k)[0] == e);
        assert(vs.skip(k).drop_first() =~= vs.skip(k + 1));
        assert(enc_list_elems(vs.skip(k)) == enc_list(e) + enc_list_elems(vs.skip(k + 1)));
        assert(enc_list(e) + data.subrange(p1, p2) =~= data.subrange(pos, p2));
    }
}

/// Parsed compound list elements re-encode to exactly the consumed bytes.
pub proof fn lemma_elems_comp_rt(
    data: Seq<u8>,
    pos: int,
    n: int,
    depth: int,
    acc: Seq<Seq<(Seq<u8>, TagM)>>,
)
    requires
        0 <= pos <= data.len(),
        parse_elems_comp(data, pos, n, depth, acc) is Ok,
    ensures
        ({
            let (vs, p2) = parse_elems_comp(data, pos, n, depth, acc)->Ok_0;
            &&& pos <= p2 <= data.len()
            &&& vs.len() == acc.len() + (if n > 0 { n } else { 0 })
            &&& vs.take(acc.len() as int) == acc
            &&& enc_comp_elems(vs.skip(acc.len() as int)) == data.subrange(pos, p2)
            &&& (forall|i: int| acc.len() <= i < vs.len() ==> wf_entries(#[trigger] vs[i]))
        }),
    decreases data.len() - pos, 3int, (if n > 0 { n } else { 0 }),
{
    let (vs, p2) = parse_elems_comp(data, pos, n, depth, acc)->Ok_0;
    let k = acc.len() as int;
    if n <= 0 {
        assert(vs.take(k) =~= acc);
        assert(vs.skip(k) =~= Seq::<Seq<(Seq<u8>, TagM)>>::empty());
        assert(enc_comp_elems(vs.skip(k)) =~= data.subrange(pos, pos));
    } else {
        lemma_entries_rt(data, pos, depth, seq![]);
        let (e, p1) = parse_entries(data, pos, depth, seq![])->Ok_0;
        assert(e.skip(0) =~= e);
        lemma_elems_comp_rt(data, p1, n - 1, depth, acc.push(e));
        assert(vs.take(k + 1) == acc.push(e));
        assert(vs.take(k) =~= vs.take(k + 1).take(k));
        assert(vs.take(k + 1).take(k) =~= acc);
        assert(vs[k] == vs.take(k + 1)[k]);
        assert(vs.skip(k).len() > 0 && vs.skip(k)[0] == e);
        assert(vs.skip(k).drop_first() =~= vs.skip(k + 1));
        assert(enc_comp_elems(vs.skip(k)) == (enc_entries(e) + seq![0u8]) + enc_comp_elems(
            vs.skip(k + 1),
        ));
        assert((enc_entries(e) + seq![0u8]) + data.subrange(p1, p2) =~= data.subrange(pos, p2));
    }
}

/// A parsed list payload re-encodes to exactly the consumed bytes and meets
/// the structural bounds.
pub proof fn lemma_list_payload_rt(data: Seq<u8>, pos: int, depth: int)
    requires
        0 <= pos,
        parse_list_payload(data, pos, depth) is Ok,
    ensures
        ({
            let (l, p2) = parse_list_payload(data, pos, depth)->Ok_0;
            &&& pos + 5 <= p2 <= data.len()
            &&& wf_list(l)
            &&& enc_list(l) == data.subrange(pos, p2)
        }),
    decreases data.len() - pos, 1int, 0int,
{
    let (l, p2) = parse_list_payload(data, pos, depth)->Ok_0;
    let t = data[pos];
    let c = be_u32(data[pos + 1], data[pos + 2], data[pos + 3], data[pos + 4]);
    let n = c as int;
    let p = pos + 5;
    crate::wire::lemma_u32_enc_of_be(data[pos + 1], data[pos + 2], data[pos + 3], data[pos + 4]);
    assert(enc_u32(c) == seq![data[pos + 1], data[pos + 2], data[pos + 3], data[pos + 4]]);
    if n == 0 {
        assert(enc_list(l) =~= data.subrange(pos, p2));
    } else if t == 1 {
        lemma_elems_i8_rt(data, p, n, seq![]);
        let (vs, q2) = parse_elems_i8(data, p, n, seq![])->Ok_0;
        assert(vs.skip(0) =~= vs);
        assert(enc_list(l) =~= data.subrange(pos, p2));
    } else if t == 2 {
        lemma_elems_i16_rt(data, p, n, seq![]);
        let (vs, q2) = parse_elems_i16(data, p, n, seq![])->Ok_0;
        assert(vs.skip(0) =~= vs);
        assert(enc_list(l) =~= data.subrange(pos, p2));
    } else if t == 3 {
        let b = data.subrange(p, p + 4 * n);
        assert(b.len() == 4 * n && b.len() / 4 == n && b.len() % 4 == 0);
        assert(enc_list(l) =~= data.subrange(pos, p2));
    } else if t == 4 {
        let b = data.subrange(p, p + 8 * n);
        assert(b.len() == 8 * n && b.len() / 8 == n && b.len() % 8 == 0);
        assert(enc_list(l) =~= data.subrange(pos, p2));
    } else if t == 5 {
        lemma_elems_f32_rt(data, p, n, seq![]);
        let (vs, q2) = parse_elems_f32(data, p, n, seq![])->Ok_0;
        assert(vs.skip(0) =~= vs);
        assert(enc_list(l) =~= data.subrange(pos, p2));
    } else if t == 6 {
        lemma_elems_f64_rt(data, p, n, seq![]);
        let (vs, q2) = parse_elems_f64(data, p, n, seq![])->Ok_0;
        assert(vs.skip(0) =~= vs);
        assert(enc_list(l) =~= data.subrange(pos, p2));
    } else if t == 7 {
        lemma_elems_barr_rt(data, p, n, seq![]);
        let (vs, q2) = parse_elems_barr(data, p, n, seq![])->Ok_0;
        assert(vs.skip(0) =~= vs);
        assert(enc_list(l) =~= data.subrange(pos, p2));
    } else if t == 8 {
        lemma_elems_str_rt(data, p, n, seq![]);
        let (vs, q2) = parse_elems_str(data, p, n, seq![])->Ok_0;
        assert(vs.skip(0) =~= vs);
        assert(enc_list(l) =~= data.subrange(pos, p2));
    } else if t == 9 {
        lemma_elems_list_rt(data, p, n, depth + 1, seq![]);
        let (vs, q2) = parse_elems_list(data, p, n, depth + 1, seq![])->Ok_0;
        assert(vs.skip(0) =~= vs);
        assert(enc_list(l) =~= data.subrange(pos, p2));
    } else if t == 10 {
        lemma_elems_comp_rt(data, p, n, depth + 1, seq![]);
        let (vs, q2) = parse_elems_comp(data, p, n, depth + 1, seq![])->Ok_0;
        assert(vs.skip(0) =~= vs);
        assert(enc_list(l) =~= data.subrange(pos, p2));
    } else if t == 11 {
        lemma_elems_iarr_rt(data, p, n, seq![]);
        let (vs, q2) = parse_elems_iarr(data, p, n, seq![])->Ok_0;
        assert(vs.skip(0) =~= vs);
        assert(enc_list(l) =~= data.subrange(pos, p2));
    } else {
        lemma_elems_larr_rt(data, p, n, seq![]);
        let (vs, q2) = parse_elems_larr(data, p, n, seq![])->Ok_0;
        assert(vs.skip(0) =~= vs);
        assert(enc_list(l) =~= data.subrange(pos, p2));
    }
}

/// A parsed tag payload re-encodes to exactly the consumed bytes, consumes
/// at least one byte, carries the discriminant it was read with, and meets
/// the structural bounds.
pub proof fn lemma_payload_rt(data: Seq<u8>, pos: int, t: u8, depth: int)
    requires
        0 <= pos,
        parse_payload(data, pos, t, depth) is Ok,
    ensures
        ({
            let (m, p2) = parse_payload(data, pos, t, depth)->Ok_0;
            &&& pos < p2 <= data.len()
            &&& wf_tag(m)
            &&& tag_id_of(m) == t
            &&& enc_payload(m) == data.subrange(pos, p2)
        }),
    decreases data.len() - pos, 2int, 0int,
{
    let (m, p2) = parse_payload(data, pos, t, depth)->Ok_0;
    if t == 1 {
        crate::wire::lemma_i8_round_trip(data[pos]);
        assert(enc_payload(m) =~= data.subrange(pos, p2));
    } else if t == 2 {
        crate::wire::lemma_i16_round_trip(be_u16(data[pos], data[pos + 1]));
        crate::wire::lemma_u16_enc_of_be(data[pos], data[pos + 1]);
        assert(enc_payload(m) =~= data.subrange(pos, p2));
    } else if t == 3 {
        crate::wire::lemma_i32_round_trip(
            be_u32(data[pos], data[pos + 1], data[pos + 2], data[pos + 3]),
        );
        crate::wire::lemma_u32_enc_of_be(data[pos], data[pos + 1], data[pos + 2], data[pos + 3]);
        assert(enc_payload(m) =~= data.subrange(pos, p2));
    } else if t == 4 {
        crate::wire::lemma_i64_round_trip(
            be_u64(
                data[pos],
                data[pos + 1],
                data[pos + 2],
                data[pos + 3],
                data[pos + 4],
                data[pos + 5],
                data[pos + 6],
                data[pos + 7],
            ),
        );
        crate::wire::lemma_u64_enc_of_be(
            data[pos],
            data[pos + 1],
            data[pos + 2],
            data[pos + 3],
            data[pos + 4],
            data[pos + 5],
            data[pos + 6],
            data[pos + 7],
        );
        assert(enc_payload(m) =~= data.subrange(pos, p2));
    } else if t == 5 {
        crate::wire::lemma_u32_enc_of_be(data[pos], data[pos + 1], data[pos + 2], data[pos + 3]);
        assert(enc_payload(m) =~= data.subrange(pos, p2));
    } else if t == 6 {
        crate::wire::lemma_u64_enc_of_be(
            data[pos],
            data[pos + 1],
            data[pos + 2],
            data[pos + 3],
            data[pos + 4],
            data[pos + 5],
            data[pos + 6],
            data[pos + 7],
        );
        assert(enc_payload(m) =~= data.subrange(pos, p2));
    } else if t == 7 {
        lemma_barr_rt(data, pos);
    } else if t == 8 {
        lemma_str_rt(data, pos);
    } else if t == 9 {
        lemma_list_payload_rt(data, pos, depth + 1);
    } else if t == 10 {
        lemma_entries_rt(data, pos, depth + 1, seq![]);
        let (es, q2) = parse_entries(data, pos, depth + 1, seq![])->Ok_0;
        assert(es.skip(0) =~= es);
        assert(enc_payload(m) == enc_entries(es) + seq![0u8]);
    } else if t == 11 {
        lemma_iarr_rt(data, pos);
    } else {
        lemma_larr_rt(data, pos);
    }
}

/// A parsed compound body re-encodes, together with its end byte, to
/// exactly the consumed bytes, and its pairs meet the structural bounds.
pub proof fn lemma_entries_rt(data: Seq<u8>, pos: int, depth: int, acc: Seq<(Seq<u8>, TagM)>)
    requires
        0 <= pos,
        parse_entries(data, pos, depth, acc) is Ok,
    ensures
        ({
            let (es, p2) = parse_entries(data, pos, depth, acc)->Ok_0;
            &&& pos < p2 <= data.len()
            &&& es.len() >= acc.len()
            &&& es.take(acc.len() as int) == acc
            &&& wf_entries(es.skip(acc.len() as int))
            &&& enc_entries(es.skip(acc.len() as int)) + seq![0u8] == data.subrange(pos, p2)
        }),
    decreases data.len() - pos, 0int, 0int,
{
    let (es, p2) = parse_entries(data, pos, depth, acc)->Ok_0;
    let k = acc.len() as int;
    let t = data[pos];
    if t == 0 {
        assert(es.take(k) =~= acc);
        assert(es.skip(k) =~= Seq::<(Seq<u8>, TagM)>::empty());
        assert(enc_entries(es.skip(k)) + seq![0u8] =~= data.subrange(pos, pos + 1));
    } else {
        lemma_str_rt(data, pos + 1);
        let (name, p1) = parse_str(data, pos + 1)->Ok_0;
        lemma_payload_rt(data, p1, t, depth);
        let (tag, pm) = parse_payload(data, p1, t, depth)->Ok_0;
        lemma_entries_rt(data, pm, depth, acc.push((name, tag)));
        assert(es.take(k + 1) == acc.push((name, tag)));
        assert(es.take(k) =~= es.take(k + 1).take(k));
        assert(es.take(k + 1).take(k) =~= acc);
        assert(es[k] == es.take(k + 1)[k]);
        assert(es.skip(k).len() > 0 && es.skip(k)[0] == (name, tag));
        assert(es.skip(k).drop_first() =~= es.skip(k + 1));
        assert(enc_entries(es.skip(k)) == (seq![tag_id_of(tag)] + enc_str(name) + enc_payload(tag))
            + enc_entries(es.skip(k + 1)));
        assert(seq![tag_id_of(tag)] =~= data.subrange(pos, pos + 1));
        assert(seq![tag_id_of(tag)] + enc_str(name) + enc_payload(tag) =~= data.subrange(pos, pm));
        assert((seq![tag_id_of(tag)] + enc_str(name) + enc_payload(tag)) + (enc_entries(
            es.skip(k + 1),
        ) + seq![0u8]) =~= data.subrange(pos, p2));
        assert(enc_entries(es.skip(k)) + seq![0u8] =~= data.subrange(pos, p2));
        assert forall|i: int| 0 <= i < es.skip(k).len() implies (#[trigger] es.skip(k)[i]).0.len()
            <= 0xFFFF && wf_tag(es.skip(k)[i].1) by {
            if i == 0 {
                assert(es.skip(k)[0] == (name, tag));
            } else {
                assert(es.skip(k)[i] == es.skip(k + 1)[i - 1]);
                assert(wf_entries(es.skip(k + 1)));
            }
        }
        assert(wf_entries(es.skip(k)));
    }
}

/// Round trip: re-encoding any successfully decoded document reproduces,
/// byte for byte, exactly the input bytes the decoder consumed.
pub proof fn lemma_document_rt(data: Seq<u8>)
    requires
        parse_document(data) is Ok,
    ensures
        ({
            let (o, p2) = parse_document(data)->Ok_0;
            &&& 1 <= p2 <= data.len()
            &&& wf_document(o)
            &&& enc_document(o) == data.subrange(0, p2)
        }),
{
    let (o, p2) = parse_document(data)->Ok_0;
    if data[0] == 0 {
        assert(enc_document(o) =~= data.subrange(0, 1));
    } else {
        lemma_str_rt(data, 1);
        let (name, p1) = parse_str(data, 1)->Ok_0;
        lemma_entries_rt(data, p1, 1, seq![]);
        let (es, q2) = parse_entries(data, p1, 1, seq![])->Ok_0;
        assert(es.skip(0) =~= es);
        assert(seq![10u8] =~= data.subrange(0, 1));
        assert(seq![10u8] + enc_str(name) =~= data.subrange(0, p1));
        assert((seq![10u8] + enc_str(name)) + (enc_entries(es) + seq![0u8]) =~= data.subrange(
            0,
            p2,
        ));
        assert(seq![10u8] + enc_str(name) + enc_entries(es) + seq![0u8] =~= (seq![10u8] + enc_str(
            name,
        )) + (enc_entries(es) + seq![0u8]));
    }
}

/// Round trip on a whole buffer: when the decoder consumed every byte of
/// `data`, re-encoding the document gives back `data` itself.
pub proof fn lemma_document_round_trip(data: Seq<u8>)
    requires
        parse_document(data) is Ok,
        parse_document(data)->Ok_0.1 == data.len(),
    ensures
        enc_document(parse_document(data)->Ok_0.0) == data,
{
    lemma_document_rt(data);
    assert(data.subrange(0, data.len() as int) =~= data);
}

} // verus!

verus! {


/// Appending one element appends its bytes to the sequence encoding.
pub proof fn lemma_enc_i8s_snoc(vs: Seq<i8>, v: i8)
    ensures
        enc_i8s(vs.push(v)) == enc_i8s(vs) + seq![u8_of_i8(v)],
    decreases vs.len(),
{
    let p = vs.push(v);
    if vs.len() == 0 {
        assert(p[0] == v);
        assert(p.drop_first() =~= Seq::<i8>::empty());
        assert(enc_i8s(p) == seq![u8_of_i8(v)] + enc_i8s(Seq::<i8>::empty()));
        assert(enc_i8s(p) =~= enc_i8s(vs) + seq![u8_of_i8(v)]);
    } else {
        assert(p[0] == vs[0]);
        assert(p.drop_first() =~= vs.drop_first().push(v));
        lemma_enc_i8s_snoc(vs.drop_first(), v);
        assert(enc_i8s(p) == seq![u8_of_i8(vs[0])] + enc_i8s(vs.drop_first().push(v)));
        assert(enc_i8s(p) =~= enc_i8s(vs) + seq![u8_of_i8(v)]);
    }
}


/// Appending one element appends its bytes to the sequence encoding.
pub proof fn lemma_enc_i16s_snoc(vs: Seq<i16>, v: i16)
    ensures
        enc_i16s(vs.push(v)) == enc_i16s(vs) + enc_u16(u16_of_i16(v)),
    decreases vs.len(),
{
    let p = vs.push(v);
    if vs.len() == 0 {
        assert(p[0] == v);
        assert(p.drop_first() =~= Seq::<i16>::empty());
        assert(enc_i16s(p) == enc_u16(u16_of_i16(v)) + enc_i16s(Seq::<i16>::empty()));
        assert(enc_i16s(p) =~= enc_i16s(vs) + enc_u16(u16_of_i16(v)));
    } else {
        assert(p[0] == vs[0]);
        assert(p.drop_first() =~= vs.drop_first().push(v));
        lemma_enc_i16s_snoc(vs.drop_first(), v);
        assert(enc_i16s(p) == enc_u16(u16_of_i16(vs[0])) + enc_i16s(vs.drop_first().push(v)));
        assert(enc_i16s(p) =~= enc_i16s(vs) + enc_u16(u16_of_i16(v)));
    }
}


/// Appending one element appends its bytes to the sequence encoding.
pub proof fn lemma_enc_f32s_snoc(vs: Seq<u32>, v: u32)
    ensures
        enc_f32s(vs.push(v)) == enc_f32s(vs) + enc_u32(v),
    decreases vs.len(),
{
    let p = vs.push(v);
    if vs.len() == 0 {
        assert(p[0] == v);
        assert(p.drop_first() =~= Seq::<u32>::empty());
        assert(enc_f32s(p) == enc_u32(v) + enc_f32s(Seq::<u32>::empty()));
        assert(enc_f32s(p) =~= enc_f32s(vs) + enc_u32(v));
    } else {
        assert(p[0] == vs[0]);
        assert(p.drop_first() =~= vs.drop_first().push(v));
        lemma_enc_f32s_snoc(vs.drop_first(), v);
        assert(enc_f32s(p) == enc_u32(vs[0]) + enc_f32s(vs.drop_first().push(v)));
        assert(enc_f32s(p) =~= enc_f32s(vs) + enc_u32(v));
    }
}


/// Appending one element appends its bytes to the sequence encoding.
pub proof fn lemma_enc_f64s_snoc(vs: Seq<u64>, v: u64)
    ensures
        enc_f64s(vs.push(v)) == enc_f64s(vs) + enc_u64(v),
    decreases vs.len(),
{
    let p = vs.push(v);
    if vs.len() == 0 {
        assert(p[0] == v);
        assert(p.drop_first() =~= Seq::<u64>::empty());
        assert(enc_f64s(p) == enc_u64(v) + enc_f64s(Seq::<u64>::empty()));
        assert(enc_f64s(p) =~= enc_f64s(vs) + enc_u64(v));
    } else {
        assert(p[0] == vs[0]);
        assert(p.drop_first() =~= vs.drop_first().push(v));
        lemma_enc_f64s_snoc(vs.drop_first(), v);
        assert(enc_f64s(p) == enc_u64(vs[0]) + enc_f64s(vs.drop_first().push(v)));
        assert(enc_f64s(p) =~= enc_f64s(vs) + enc_u64(v));
    }
}


/// Appending one element appends its bytes to the sequence encoding.
pub proof fn lemma_enc_barrs_snoc(vs: Seq<Seq<u8>>, v: Seq<u8>)
    ensures
        enc_barrs(vs.push(v)) == enc_barrs(vs) + enc_barr(v),
    decreases vs.len(),
{
    let p = vs.push(v);
    if vs.len() == 0 {
        assert(p[0] == v);
        assert(p.drop_first() =~= Seq::<Seq<u8>>::empty());
        assert(enc_barrs(p) == enc_barr(v) + enc_barrs(Seq::<Seq<u8>>::empty()));
        assert(enc_barrs(p) =~= enc_barrs(vs) + enc_barr(v));
    } else {
        assert(p[0] == vs[0]);
        assert(p.drop_first() =~= vs.drop_first().push(v));
        lemma_enc_barrs_snoc(vs.drop_first(), v);
        assert(enc_barrs(p) == enc_barr(vs[0]) + enc_barrs(vs.drop_first().push(v)));
        assert(enc_barrs(p) =~= enc_barrs(vs) + enc_barr(v));
    }
}


/// Appending one element appends its bytes to the sequence encoding.
pub proof fn lemma_enc_strs_snoc(vs: Seq<Seq<u8>>, v: Seq<u8>)
    ensures
        enc_strs(vs.push(v)) == enc_strs(vs) + enc_str(v),
    decreases vs.len(),
{
    let p = vs.push(v);
    if vs.len() == 0 {
        assert(p[0] == v);
        assert(p.drop_first() =~= Seq::<Seq<u8>>::empty());
        assert(enc_strs(p) == enc_str(v) + enc_strs(Seq::<Seq<u8>>::empty()));
        assert(enc_strs(p) =~= enc_strs(vs) + enc_str(v));
    } else {
        assert(p[0] == vs[0]);
        assert(p.drop_first() =~= vs.drop_first().push(v));
        lemma_enc_strs_snoc(vs.drop_first(), v);
        assert(enc_strs(p) == enc_str(vs[0]) + enc_strs(vs.drop_first().push(v)));
        assert(enc_strs(p) =~= enc_strs(vs) + enc_str(v));
    }
}


/// Appending one element appends its bytes to the sequence encoding.
pub proof fn lemma_enc_iarrs_snoc(vs: Seq<Seq<u8>>, v: Seq<u8>)
    ensures
        enc_iarrs(vs.push(v)) == enc_iarrs(vs) + enc_iarr(v),
    decreases vs.len(),
{
    let p = vs.push(v);
    if vs.len() == 0 {
        assert(p[0] == v);
        assert(p.drop_first() =~= Seq::<Seq<u8>>::empty());
        assert(enc_iarrs(p) == enc_iarr(v) + enc_iarrs(Seq::<Seq<u8>>::empty()));
        assert(enc_iarrs(p) =~= enc_iarrs(vs) + enc_iarr(v));
    } else {
        assert(p[0] == vs[0]);
        assert(p.drop_first() =~= vs.drop_first().push(v));
        lemma_enc_iarrs_snoc(vs.drop_first(), v);
        assert(enc_iarrs(p) == enc_iarr(vs[0]) + enc_iarrs(vs.drop_first().push(v)));
        assert(enc_iarrs(p) =~= enc_iarrs(vs) + enc_iarr(v));
    }
}


/// Appending one element appends its bytes to the sequence encoding.
pub proof fn lemma_enc_larrs_snoc(vs: Seq<Seq<u8>>, v: Seq<u8>)
    ensures
        enc_larrs(vs.push(v)) == enc_larrs(vs) + enc_larr(v),
    decreases vs.len(),
{
    let p = vs.push(v);
    if vs.len() == 0 {
        assert(p[0] == v);
        assert(p.drop_first() =~= Seq::<Seq<u8>>::empty());
        assert(enc_larrs(p) == enc_larr(v) + enc_larrs(Seq::<Seq<u8>>::empty()));
        assert(enc_larrs(p) =~= enc_larrs(vs) + enc_larr(v));
    } else {
        assert(p[0] == vs[0]);
        assert(p.drop_first() =~= vs.drop_first().push(v));
        lemma_enc_larrs_snoc(vs.drop_first(), v);
        assert(enc_larrs(p) == enc_larr(vs[0]) + enc_larrs(vs.drop_first().push(v)));
        assert(enc_larrs(p) =~= enc_larrs(vs) + enc_larr(v));
    }
}


/// Appending one element appends its bytes to the sequence encoding.
pub proof fn lemma_enc_list_elems_snoc(vs: Seq<ListM>, v: ListM)
    ensures
        enc_list_elems(vs.push(v)) == enc_list_elems(vs) + enc_list(v),
    decreases vs.len(),
{
    let p = vs.push(v);
    if vs.len() == 0 {
        assert(p[0] == v);
        assert(p.drop_first() =~= Seq::<ListM>::empty());
        assert(enc_list_elems(p) == enc_list(v) + enc_list_elems(Seq::<ListM>::empty()));
        assert(enc_list_elems(p) =~= enc_list_elems(vs) + enc_list(v));
    } else {
        assert(p[0] == vs[0]);
        assert(p.drop_first() =~= vs.drop_first().push(v));
        lemma_enc_list_elems_snoc(vs.drop_first(), v);
        assert(enc_list_elems(p) == enc_list(vs[0]) + enc_list_elems(vs.drop_first().push(v)));
        assert(enc_list_elems(p) =~= enc_list_elems(vs) + enc_list(v));
    }
}


/// Appending one element appends its bytes to the sequence encoding.
pub proof fn lemma_enc_comp_elems_snoc(vs: Seq<Seq<(Seq<u8>, TagM)>>, v: Seq<(Seq<u8>, TagM)>)
    ensures
        enc_comp_elems(vs.push(v)) == enc_comp_elems(vs) + (enc_entries(v) + seq![0u8]),
    decreases vs.len(),
{
    let p = vs.push(v);
    if vs.len() == 0 {
        assert(p[0] == v);
        assert(p.drop_first() =~= Seq::<Seq<(Seq<u8>, TagM)>>::empty());
        assert(enc_comp_elems(p) == (enc_entries(v) + seq![0u8]) + enc_comp_elems(Seq::<Seq<(Seq<u8>, TagM)>>::empty()));
        assert(enc_comp_elems(p) =~= enc_comp_elems(vs) + (enc_entries(v) + seq![0u8]));
    } else {
        assert(p[0] == vs[0]);
        assert(p.drop_first() =~= vs.drop_first().push(v));
        lemma_enc_comp_elems_snoc(vs.drop_first(), v);
        assert(enc_comp_elems(p) == (enc_entries(vs[0]) + seq![0u8]) + enc_comp_elems(vs.drop_first().push(v)));
        assert(enc_comp_elems(p) =~= enc_comp_elems(vs) + (enc_entries(v) + seq![0u8]));
    }
}


/// Appending one pair appends its discriminant, name and payload to the
/// compound encoding.
pub proof fn lemma_enc_entries_snoc(es: Seq<(Seq<u8>, TagM)>, e: (Seq<u8>, TagM))
    ensures
        enc_entries(es.push(e)) == enc_entries(es) + (seq![tag_id_of(e.1)] + enc_str(e.0)
            + enc_payload(e.1)),
    decreases es.len(),
{
    let p = es.push(e);
    if es.len() == 0 {
        assert(p[0] == e);
        assert(p.drop_first() =~= Seq::<(Seq<u8>, TagM)>::empty());
        assert(enc_entries(p) == (seq![tag_id_of(e.1)] + enc_str(e.0) + enc_payload(e.1))
            + enc_entries(Seq::<(Seq<u8>, TagM)>::empty()));
        assert(enc_entries(p) =~= enc_entries(es) + (seq![tag_id_of(e.1)] + enc_str(e.0)
            + enc_payload(e.1)));
    } else {
        assert(p[0] == es[0]);
        assert(p.drop_first() =~= es.drop_first().push(e));
        lemma_enc_entries_snoc(es.drop_first(), e);
        assert(enc_entries(p) == (seq![tag_id_of(es[0].1)] + enc_str(es[0].0) + enc_payload(
            es[0].1,
        )) + enc_entries(es.drop_first().push(e)));
        assert(enc_entries(p) =~= enc_entries(es) + (seq![tag_id_of(e.1)] + enc_str(e.0)
            + enc_payload(e.1)));
    }
}

} // verus!

verus! {

/// The absent document: a single end byte decodes to the absent marker,
/// and re-encoding the absent marker reproduces exactly that single byte.
pub proof fn lemma_absent_document()
    ensures
        parse_document(seq![0u8]) == Ok::<_, Error>((OptNbtM::Absent, 1int)),
        enc_document(OptNbtM::Absent) == seq![0u8],
{
    assert(seq![0u8].len() == 1 && seq![0u8][0] == 0);
    assert(enc_document(OptNbtM::Absent) =~= seq![0u8]);
}

} // verus!

verus! {

/// The model of a chain of `j` singleton lists ending in an empty list:
/// the canonical document family nested `j` containers deep.
pub open spec fn nested_list(j: int) -> ListM
    decreases j,
{
    if j <= 1 {
        ListM::Empty(9)
    } else {
        ListM::List(seq![nested_list(j - 1)])
    }
}

/// True when the bytes at `pos` spell `j` nested singleton lists: each
/// level declares one list element, and the innermost declares zero.
pub open spec fn nested_list_bytes(data: Seq<u8>, pos: int, j: int) -> bool {
    &&& 0 <= pos
    &&& pos + 5 * j <= data.len()
    &&& forall|i: int|
        0 <= i < j ==> data[#[trigger] (pos + 5 * i)] == 9 && data[pos + 5 * i + 1] == 0 && data[pos
            + 5 * i + 2] == 0 && data[pos + 5 * i + 3] == 0 && data[pos + 5 * i + 4] == (if i < j
            - 1 {
            1u8
        } else {
            0u8
        })
}

/// Depth guard, in general: a chain of `j` nested lists entered at nesting
/// level `depth` parses in full exactly when its deepest level stays
/// within the bound, and otherwise fails with the depth error — never by
/// running on.
pub proof fn lemma_depth_guard(data: Seq<u8>, pos: int, j: int, depth: int)
    requires
        1 <= j,
        1 <= depth <= 512,
        nested_list_bytes(data, pos, j),
    ensures
        depth + j - 1 <= 512 ==> parse_list_payload(data, pos, depth) == Ok::<_, Error>(
            (nested_list(j), pos + 5 * j),
        ),
        depth + j - 1 > 512 ==> parse_list_payload(data, pos, depth) == Err::<
            (ListM, int),
            Error,
        >(Error::MaxDepthExceeded),
    decreases j,
{
    let t = data[pos];
    let c = be_u32(data[pos + 1], data[pos + 2], data[pos + 3], data[pos + 4]);
    assert(data[pos + 5 * 0] == 9 && data[pos + 5 * 0 + 4] == (if 0 < j - 1 {
        1u8
    } else {
        0u8
    }));
    assert(t == 9);
    if j == 1 {
        assert(c == be_u32(0, 0, 0, 0));
        assert(be_u32(0, 0, 0, 0) == 0) by (bit_vector);
        assert(parse_list_payload(data, pos, depth) == Ok::<_, Error>(
            (ListM::Empty(9), pos + 5),
        ));
    } else {
        assert(c == be_u32(0, 0, 0, 1));
        assert(be_u32(0, 0, 0, 1) == 1) by (bit_vector);
        if depth >= 512 {
            assert(parse_list_payload(data, pos, depth) == Err::<(ListM, int), Error>(
                Error::MaxDepthExceeded,
            ));
        } else {
            assert(nested_list_bytes(data, pos + 5, j - 1)) by {
                assert forall|i: int| 0 <= i < j - 1 implies data[#[trigger] ((pos + 5) + 5 * i)]
                    == 9 && data[(pos + 5) + 5 * i + 1] == 0 && data[(pos + 5) + 5 * i + 2] == 0
                    && data[(pos + 5) + 5 * i + 3] == 0 && data[(pos + 5) + 5 * i + 4] == (if i < j
                    - 2 {
                    1u8
                } else {
                    0u8
                }) by {
                    assert((pos + 5) + 5 * i == pos + 5 * (i + 1));
                    assert(0 <= i + 1 < j);
                    assert(data[pos + 5 * (i + 1)] == 9);
                }
            }
            lemma_depth_guard(data, pos + 5, j - 1, depth + 1);
            assert((pos + 5) + 5 * (j - 1) == pos + 5 * j);
            if depth + j - 1 <= 512 {
                assert(Seq::<ListM>::empty().push(nested_list(j - 1)) =~= seq![
                    nested_list(j - 1),
                ]);
                assert(parse_elems_list(data, pos + 5 * j, 0, depth + 1, seq![nested_list(j - 1)])
                    == Ok::<_, Error>((seq![nested_list(j - 1)], pos + 5 * j)));
                assert(parse_elems_list(data, pos + 5, 1, depth + 1, seq![]) == Ok::<_, Error>(
                    (seq![nested_list(j - 1)], pos + 5 * j),
                ));
                assert(parse_list_payload(data, pos, depth) == Ok::<_, Error>(
                    (ListM::List(seq![nested_list(j - 1)]), pos + 5 * j),
                ));
                assert(nested_list(j) == ListM::List(seq![nested_list(j - 1)]));
            } else {
                assert(parse_elems_list(data, pos + 5, 1, depth + 1, seq![]) == Err::<
                    (Seq<ListM>, int),
                    Error,
                >(Error::MaxDepthExceeded));
            }
        }
    }
}

} // verus!
