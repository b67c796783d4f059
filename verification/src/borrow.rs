//! The borrowed document representation and its reader and writer. Decoded
//! values borrow payload bytes from the input buffer; the reader is
//! specified exactly against the parsing grammar, and the writer against
//! the wire encoding, so a decoded document re-encodes byte for byte.

use crate::model::parse_barr;
use crate::model::parse_count;
use crate::model::parse_document;
use crate::model::parse_elems_barr;
use crate::model::parse_elems_comp;
use crate::model::parse_elems_f32;
use crate::model::parse_elems_f64;
use crate::model::parse_elems_i16;
use crate::model::parse_elems_i8;
use crate::model::parse_elems_iarr;
use crate::model::parse_elems_larr;
use crate::model::parse_elems_list;
use crate::model::parse_elems_str;
use crate::model::parse_entries;
use crate::model::parse_iarr;
use crate::model::parse_larr;
use crate::model::parse_list_payload;
use crate::model::parse_payload;
use crate::model::parse_str;
use crate::model::enc_document;
use crate::model::enc_entries;
use crate::model::enc_list;
use crate::model::enc_payload;
use crate::model::enc_str;
use crate::model::enc_i8s;
use crate::model::enc_i16s;
use crate::model::enc_f32s;
use crate::model::enc_f64s;
use crate::model::enc_barrs;
use crate::model::enc_strs;
use crate::model::enc_iarrs;
use crate::model::enc_larrs;
use crate::model::enc_list_elems;
use crate::model::enc_comp_elems;
use crate::model::wf_document;
use crate::model::wf_entries;
use crate::model::wf_list;
use crate::model::wf_tag;
use crate::model::tag_id_of;
use crate::model::tag_known;
use crate::model::ListM;
use crate::model::NbtM;
use crate::model::OptNbtM;
use crate::model::TagM;
use crate::mutf8::Mutf8Str;
use crate::raw_list::RawIntArray;
use crate::raw_list::RawLongArray;
use crate::wire::read_u16_be;
use crate::wire::read_u32_be;
use crate::wire::read_u64_be;
use crate::wire::read_u8;
use crate::wire::to_i16;
use crate::wire::to_i32;
use crate::wire::to_i64;
use crate::wire::to_i8;
use crate::wire::MAX_DEPTH;
use crate::Error;
use vstd::prelude::*;
use vstd::string::StringSliceAdditionalSpecFns;
use vstd::slice::slice_subrange;

verus! {

broadcast use vstd::std_specs::vec::group_vec_axioms;

/// A single decoded tag value. Floats are carried as raw bit patterns so
/// that re-encoding is exact; byte strings and numeric arrays borrow from
/// the input buffer.
#[derive(Debug, PartialEq)]
pub enum Tag<'a> {
    Byte(i8),
    Short(i16),
    Int(i32),
    Long(i64),
    Float(u32),
    Double(u64),
    ByteArray(&'a [u8]),
    String(Mutf8Str<'a>),
    List(ListTag<'a>),
    Compound(CompoundTag<'a>),
    IntArray(RawIntArray<'a>),
    LongArray(RawLongArray<'a>),
}

/// A homogeneous, counted sequence of untagged values of one declared
/// element type. A zero-length list keeps the element-type byte it was read
/// with; 32- and 64-bit integer lists keep a zero-copy raw view.
#[derive(Debug, PartialEq)]
pub enum ListTag<'a> {
    Empty(u8),
    Byte(Vec<i8>),
    Short(Vec<i16>),
    Int(RawIntArray<'a>),
    Long(RawLongArray<'a>),
    Float(Vec<u32>),
    Double(Vec<u64>),
    ByteArray(Vec<&'a [u8]>),
    String(Vec<Mutf8Str<'a>>),
    List(Vec<ListTag<'a>>),
    Compound(Vec<CompoundTag<'a>>),
    IntArray(Vec<RawIntArray<'a>>),
    LongArray(Vec<RawLongArray<'a>>),
}

/// An ordered collection of named tags; order is preserved so that
/// re-encoding reproduces the input, and duplicate names are kept.
#[derive(Debug, PartialEq)]
pub struct CompoundTag<'a> {
    entries: Vec<(Mutf8Str<'a>, Tag<'a>)>,
}

/// A complete present document: a name and the root compound.
#[derive(Debug, PartialEq)]
pub struct Nbt<'a> {
    name: Mutf8Str<'a>,
    tag: CompoundTag<'a>,
}

/// A decoded document: a present root or the explicit absent marker, since
/// a bare end sentinel is a complete, valid, empty document.
#[derive(Debug, PartialEq)]
pub enum OptionalNbt<'a> {
    Present(Nbt<'a>),
    Absent,
}

/// The model value of a tag.
pub closed spec fn tag_view(t: Tag) -> TagM
    decreases t,
{
    match t {
        Tag::Byte(v) => TagM::Byte(v),
        Tag::Short(v) => TagM::Short(v),
        Tag::Int(v) => TagM::Int(v),
        Tag::Long(v) => TagM::Long(v),
        Tag::Float(v) => TagM::Float(v),
        Tag::Double(v) => TagM::Double(v),
        Tag::ByteArray(b) => TagM::ByteArray(b@),
        Tag::String(s) => TagM::String(s@),
        Tag::List(l) => TagM::List(list_view(l)),
        Tag::Compound(c) => TagM::Compound(entries_view(c.entries@)),
        Tag::IntArray(a) => TagM::IntArray(a@),
        Tag::LongArray(a) => TagM::LongArray(a@),
    }
}

/// The model value of a list.
pub closed spec fn list_view(l: ListTag) -> ListM
    decreases l,
{
    match l {
        ListTag::Empty(t) => ListM::Empty(t),
        ListTag::Byte(v) => ListM::Byte(v@),
        ListTag::Short(v) => ListM::Short(v@),
        ListTag::Int(a) => ListM::Int(a@),
        ListTag::Long(a) => ListM::Long(a@),
        ListTag::Float(v) => ListM::Float(v@),
        ListTag::Double(v) => ListM::Double(v@),
        ListTag::ByteArray(v) => ListM::ByteArray(slices_view(v@)),
        ListTag::String(v) => ListM::String(mstrs_view(v@)),
        ListTag::List(v) => ListM::List(lists_view(v@)),
        ListTag::Compound(v) => ListM::Compound(comps_view(v@)),
        ListTag::IntArray(v) => ListM::IntArray(iraws_view(v@)),
        ListTag::LongArray(v) => ListM::LongArray(lraws_view(v@)),
    }
}

/// The byte sequences of a sequence of borrowed slices.
pub closed spec fn slices_view(v: Seq<&[u8]>) -> Seq<Seq<u8>> {
    Seq::new(v.len(), |i: int| v[i]@)
}

/// The byte sequences of a sequence of text views.
pub closed spec fn mstrs_view(v: Seq<Mutf8Str>) -> Seq<Seq<u8>> {
    Seq::new(v.len(), |i: int| v[i]@)
}

/// The raw bytes of a sequence of 32-bit array views.
pub closed spec fn iraws_view(v: Seq<RawIntArray>) -> Seq<Seq<u8>> {
    Seq::new(v.len(), |i: int| v[i]@)
}

/// The raw bytes of a sequence of 64-bit array views.
pub closed spec fn lraws_view(v: Seq<RawLongArray>) -> Seq<Seq<u8>> {
    Seq::new(v.len(), |i: int| v[i]@)
}

/// The model values of a sequence of lists.
pub closed spec fn lists_view(v: Seq<ListTag>) -> Seq<ListM>
    decreases v,
{
    if v.len() == 0 {
        Seq::empty()
    } else {
        lists_view(v.drop_last()).push(list_view(v.last()))
    }
}

/// The model values of a sequence of compounds.
pub closed spec fn comps_view(v: Seq<CompoundTag>) -> Seq<Seq<(Seq<u8>, TagM)>>
    decreases v,
{
    if v.len() == 0 {
        Seq::empty()
    } else {
        comps_view(v.drop_last()).push(entries_view(v.last().entries@))
    }
}

/// The model value of a compound's pairs.
pub closed spec fn entries_view(es: Seq<(Mutf8Str, Tag)>) -> Seq<(Seq<u8>, TagM)>
    decreases es,
{
    if es.len() == 0 {
        Seq::empty()
    } else {
        entries_view(es.drop_last()).push((es.last().0@, tag_view(es.last().1)))
    }
}

/// The length and per-index reading of a viewed pair sequence.
pub broadcast proof fn lemma_entries_view_index(es: Seq<(Mutf8Str, Tag)>)
    ensures
        (#[trigger] entries_view(es)).len() == es.len(),
        forall|i: int|
            0 <= i < es.len() ==> #[trigger] entries_view(es)[i] == (es[i].0@, tag_view(es[i].1)),
    decreases es,
{
    if es.len() != 0 {
        lemma_entries_view_index(es.drop_last());
        assert forall|i: int| 0 <= i < es.len() implies #[trigger] entries_view(es)[i] == (
        es[i].0@,
        tag_view(es[i].1),
        ) by {
            if i < es.len() - 1 {
                assert(es.drop_last()[i] == es[i]);
            } else {
                assert(es.last() == es[i]);
            }
        }
    }
}

/// The length and per-index reading of a viewed list sequence.
pub broadcast proof fn lemma_lists_view_index(v: Seq<ListTag>)
    ensures
        (#[trigger] lists_view(v)).len() == v.len(),
        forall|i: int| 0 <= i < v.len() ==> #[trigger] lists_view(v)[i] == list_view(v[i]),
    decreases v,
{
    if v.len() != 0 {
        lemma_lists_view_index(v.drop_last());
        assert forall|i: int| 0 <= i < v.len() implies #[trigger] lists_view(v)[i] == list_view(
            v[i],
        ) by {
            if i < v.len() - 1 {
                assert(v.drop_last()[i] == v[i]);
            } else {
                assert(v.last() == v[i]);
            }
        }
    }
}

/// The length and per-index reading of a viewed compound sequence.
pub broadcast proof fn lemma_comps_view_index(v: Seq<CompoundTag>)
    ensures
        (#[trigger] comps_view(v)).len() == v.len(),
        forall|i: int| 0 <= i < v.len() ==> #[trigger] comps_view(v)[i] == v[i]@,
    decreases v,
{
    if v.len() != 0 {
        lemma_comps_view_index(v.drop_last());
        assert forall|i: int| 0 <= i < v.len() implies #[trigger] comps_view(v)[i] == v[i]@ by {
            if i < v.len() - 1 {
                assert(v.drop_last()[i] == v[i]);
            } else {
                assert(v.last() == v[i]);
            }
        }
    }
}

impl<'a> View for Tag<'a> {
    type V = TagM;

    open spec fn view(&self) -> TagM {
        tag_view(*self)
    }
}

impl<'a> View for ListTag<'a> {
    type V = ListM;

    open spec fn view(&self) -> ListM {
        list_view(*self)
    }
}

impl<'a> View for CompoundTag<'a> {
    type V = Seq<(Seq<u8>, TagM)>;

    closed spec fn view(&self) -> Seq<(Seq<u8>, TagM)> {
        entries_view(self.entries@)
    }
}

impl<'a> View for Nbt<'a> {
    type V = NbtM;

    closed spec fn view(&self) -> NbtM {
        NbtM { name: self.name@, entries: self.tag@ }
    }
}

impl<'a> View for OptionalNbt<'a> {
    type V = OptNbtM;

    open spec fn view(&self) -> OptNbtM {
        match *self {
            OptionalNbt::Present(n) => OptNbtM::Present(n@),
            OptionalNbt::Absent => OptNbtM::Absent,
        }
    }
}

/// Reads a length-prefixed string field.
fn read_str<'a>(data: &'a [u8], pos: usize) -> (r: Result<(Mutf8Str<'a>, usize), Error>)
    requires
        pos <= data@.len(),
    ensures
        match r {
            Ok((s, p2)) => parse_str(data@, pos as int) == Ok::<_, Error>((s@, p2 as int))
                && s.wf(),
            Err(e) => parse_str(data@, pos as int) == Err::<(Seq<u8>, int), Error>(e),
        },
{
    let n = data.len();
    if n - pos < 2 {
        return Err(Error::UnexpectedEof);
    }
    let len = read_u16_be(data, pos) as usize;
    if n - (pos + 2) < len {
        return Err(Error::UnexpectedEof);
    }
    let slice = slice_subrange(data, pos + 2, pos + 2 + len);
    match Mutf8Str::from_slice(slice) {
        Some(s) => Ok((s, pos + 2 + len)),
        None => Err(Error::MalformedString),
    }
}

/// Reads a 32-bit element count, rejecting negative values.
fn read_count(data: &[u8], pos: usize) -> (r: Result<(usize, usize), Error>)
    requires
        pos <= data@.len(),
    ensures
        match r {
            Ok((n, p2)) => parse_count(data@, pos as int) == Ok::<_, Error>((
                n as int,
                p2 as int,
            )) && n <= 0x7FFF_FFFF && p2 == pos + 4 && p2 <= data@.len(),
            Err(e) => parse_count(data@, pos as int) == Err::<(int, int), Error>(e),
        },
{
    let n = data.len();
    if n - pos < 4 {
        return Err(Error::UnexpectedEof);
    }
    let c = read_u32_be(data, pos);
    if c > 0x7FFF_FFFF {
        return Err(Error::UnexpectedEof);
    }
    Ok((c as usize, pos + 4))
}

/// Reads a byte array payload.
fn read_barr<'a>(data: &'a [u8], pos: usize) -> (r: Result<(&'a [u8], usize), Error>)
    requires
        pos <= data@.len(),
    ensures
        match r {
            Ok((b, p2)) => parse_barr(data@, pos as int) == Ok::<_, Error>((b@, p2 as int)),
            Err(e) => parse_barr(data@, pos as int) == Err::<(Seq<u8>, int), Error>(e),
        },
{
    let dn = data.len();
    let (n, p) = match read_count(data, pos) {
        Ok(v) => v,
        Err(e) => {
            return Err(e);
        },
    };
    if dn - p < n {
        return Err(Error::UnexpectedEof);
    }
    Ok((slice_subrange(data, p, p + n), p + n))
}

/// Reads a 32-bit integer array payload as a zero-copy view.
fn read_iarr<'a>(data: &'a [u8], pos: usize) -> (r: Result<(RawIntArray<'a>, usize), Error>)
    requires
        pos <= data@.len(),
    ensures
        match r {
            Ok((a, p2)) => parse_iarr(data@, pos as int) == Ok::<_, Error>((a@, p2 as int))
                && a.wf(),
            Err(e) => parse_iarr(data@, pos as int) == Err::<(Seq<u8>, int), Error>(e),
        },
{
    let dn = data.len();
    let (n, p) = match read_count(data, pos) {
        Ok(v) => v,
        Err(e) => {
            return Err(e);
        },
    };
    if (dn - p) / 4 < n {
        assert(p + 4 * (n as int) > dn);
        return Err(Error::UnexpectedEof);
    }
    assert(p + 4 * (n as int) <= dn);
    let b = slice_subrange(data, p, p + 4 * n);
    Ok((RawIntArray::from_bytes(b), p + 4 * n))
}

/// Reads a 64-bit integer array payload as a zero-copy view.
fn read_larr<'a>(data: &'a [u8], pos: usize) -> (r: Result<(RawLongArray<'a>, usize), Error>)
    requires
        pos <= data@.len(),
    ensures
        match r {
            Ok((a, p2)) => parse_larr(data@, pos as int) == Ok::<_, Error>((a@, p2 as int))
                && a.wf(),
            Err(e) => parse_larr(data@, pos as int) == Err::<(Seq<u8>, int), Error>(e),
        },
{
    let dn = data.len();
    let (n, p) = match read_count(data, pos) {
        Ok(v) => v,
        Err(e) => {
            return Err(e);
        },
    };
    if (dn - p) / 8 < n {
        assert(p + 8 * (n as int) > dn);
        return Err(Error::UnexpectedEof);
    }
    assert(p + 8 * (n as int) <= dn);
    let b = slice_subrange(data, p, p + 8 * n);
    Ok((RawLongArray::from_bytes(b), p + 8 * n))
}

} // verus!

verus! {

/// Reads the payload of a value with discriminant `t` inside a container at
/// `depth`, exactly as the grammar specifies.
fn read_payload<'a>(data: &'a [u8], pos: usize, t: u8, depth: u32) -> (r: Result<
    (Tag<'a>, usize),
    Error,
>)
    requires
        pos <= data@.len(),
    ensures
        match r {
            Ok((tag, p2)) => parse_payload(data@, pos as int, t, depth as int) == Ok::<_, Error>(
                (tag@, p2 as int),
            ) && p2 <= data@.len(),
            Err(e) => parse_payload(data@, pos as int, t, depth as int) == Err::<
                (TagM, int),
                Error,
            >(e),
        },
    decreases data@.len() - pos, 2int,
{
    let dn = data.len();
    if t == 1 {
        if dn - pos < 1 {
            return Err(Error::UnexpectedEof);
        }
        let b = read_u8(data, pos);
        Ok((Tag::Byte(to_i8(b)), pos + 1))
    } else if t == 2 {
        if dn - pos < 2 {
            return Err(Error::UnexpectedEof);
        }
        let v = read_u16_be(data, pos);
        Ok((Tag::Short(to_i16(v)), pos + 2))
    } else if t == 3 {
        if dn - pos < 4 {
            return Err(Error::UnexpectedEof);
        }
        let v = read_u32_be(data, pos);
        Ok((Tag::Int(to_i32(v)), pos + 4))
    } else if t == 4 {
        if dn - pos < 8 {
            return Err(Error::UnexpectedEof);
        }
        let v = read_u64_be(data, pos);
        Ok((Tag::Long(to_i64(v)), pos + 8))
    } else if t == 5 {
        if dn - pos < 4 {
            return Err(Error::UnexpectedEof);
        }
        let v = read_u32_be(data, pos);
        Ok((Tag::Float(v), pos + 4))
    } else if t == 6 {
        if dn - pos < 8 {
            return Err(Error::UnexpectedEof);
        }
        let v = read_u64_be(data, pos);
        Ok((Tag::Double(v), pos + 8))
    } else if t == 7 {
        match read_barr(data, pos) {
            Ok((b, p2)) => Ok((Tag::ByteArray(b), p2)),
            Err(e) => Err(e),
        }
    } else if t == 8 {
        match read_str(data, pos) {
            Ok((s, p2)) => Ok((Tag::String(s), p2)),
            Err(e) => Err(e),
        }
    } else if t == 9 {
        if depth >= MAX_DEPTH {
            return Err(Error::MaxDepthExceeded);
        }
        match read_list_payload(data, pos, depth + 1) {
            Ok((l, p2)) => Ok((Tag::List(l), p2)),
            Err(e) => Err(e),
        }
    } else if t == 10 {
        if depth >= MAX_DEPTH {
            return Err(Error::MaxDepthExceeded);
        }
        match read_entries(data, pos, depth + 1) {
            Ok((es, p2)) => Ok((Tag::Compound(CompoundTag { entries: es }), p2)),
            Err(e) => Err(e),
        }
    } else if t == 11 {
        match read_iarr(data, pos) {
            Ok((a, p2)) => Ok((Tag::IntArray(a), p2)),
            Err(e) => Err(e),
        }
    } else if t == 12 {
        match read_larr(data, pos) {
            Ok((a, p2)) => Ok((Tag::LongArray(a), p2)),
            Err(e) => Err(e),
        }
    } else {
        Err(Error::InvalidTagType(t))
    }
}

/// Reads a list payload: the element-type byte, the validated count, then
/// the elements, exactly as the grammar specifies.
#[verifier::loop_isolation(false)]
#[verifier::rlimit(100)]
fn read_list_payload<'a>(data: &'a [u8], pos: usize, depth: u32) -> (r: Result<
    (ListTag<'a>, usize),
    Error,
>)
    requires
        pos <= data@.len(),
    ensures
        match r {
            Ok((l, p2)) => parse_list_payload(data@, pos as int, depth as int) == Ok::<_, Error>(
                (l@, p2 as int),
            ) && p2 <= data@.len(),
            Err(e) => parse_list_payload(data@, pos as int, depth as int) == Err::<
                (ListM, int),
                Error,
            >(e),
        },
    decreases data@.len() - pos, 1int,
{
    let dn = data.len();
    if dn - pos < 5 {
        return Err(Error::UnexpectedEof);
    }
    let t = read_u8(data, pos);
    let c = read_u32_be(data, pos + 1);
    if c > 0x7FFF_FFFF {
        return Err(Error::UnexpectedEof);
    }
    let count = c as usize;
    let p0 = pos + 5;
    if count == 0 {
        return Ok((ListTag::Empty(t), p0));
    }
    if t == 0 || t > 12 {
        return Err(Error::InvalidListType);
    }
    if t == 1 {
        let mut built: Vec<i8> = Vec::new();
        let mut cur = p0;
        let mut i: usize = 0;
        assert(parse_elems_i8(data@, p0 as int, count as int, seq![]) == parse_elems_i8(
            data@,
            cur as int,
            count - i,
            built@,
        ));
        while i < count
            invariant
                p0 <= cur <= dn,
                i <= count,
                parse_elems_i8(data@, p0 as int, count as int, seq![]) == parse_elems_i8(
                    data@,
                    cur as int,
                    count - i,
                    built@,
                ),
            decreases count - i,
        {
            if dn - cur < 1 {
                return Err(Error::UnexpectedEof);
            }
            let b = read_u8(data, cur);
            let v = to_i8(b);
            assert(built@.push(v) =~= built@ + seq![v]);
            built.push(v);
            cur = cur + 1;
            i = i + 1;
        }
        Ok((ListTag::Byte(built), cur))
    } else if t == 2 {
        let mut built: Vec<i16> = Vec::new();
        let mut cur = p0;
        let mut i: usize = 0;
        while i < count
            invariant
                p0 <= cur <= dn,
                i <= count,
                parse_elems_i16(data@, p0 as int, count as int, seq![]) == parse_elems_i16(
                    data@,
                    cur as int,
                    count - i,
                    built@,
                ),
            decreases count - i,
        {
            if dn - cur < 2 {
                return Err(Error::UnexpectedEof);
            }
            let v = to_i16(read_u16_be(data, cur));
            built.push(v);
            cur = cur + 2;
            i = i + 1;
        }
        Ok((ListTag::Short(built), cur))
    } else if t == 3 {
        if (dn - p0) / 4 < count {
            assert(p0 + 4 * (count as int) > dn);
            return Err(Error::UnexpectedEof);
        }
        assert(p0 + 4 * (count as int) <= dn);
        let b = slice_subrange(data, p0, p0 + 4 * count);
        Ok((ListTag::Int(RawIntArray::from_bytes(b)), p0 + 4 * count))
    } else if t == 4 {
        if (dn - p0) / 8 < count {
            assert(p0 + 8 * (count as int) > dn);
            return Err(Error::UnexpectedEof);
        }
        assert(p0 + 8 * (count as int) <= dn);
        let b = slice_subrange(data, p0, p0 + 8 * count);
        Ok((ListTag::Long(RawLongArray::from_bytes(b)), p0 + 8 * count))
    } else if t == 5 {
        let mut built: Vec<u32> = Vec::new();
        let mut cur = p0;
        let mut i: usize = 0;
        while i < count
            invariant
                p0 <= cur <= dn,
                i <= count,
                parse_elems_f32(data@, p0 as int, count as int, seq![]) == parse_elems_f32(
                    data@,
                    cur as int,
                    count - i,
                    built@,
                ),
            decreases count - i,
        {
            if dn - cur < 4 {
                return Err(Error::UnexpectedEof);
            }
            let v = read_u32_be(data, cur);
            built.push(v);
            cur = cur + 4;
            i = i + 1;
        }
        Ok((ListTag::Float(built), cur))
    } else if t == 6 {
        let mut built: Vec<u64> = Vec::new();
        let mut cur = p0;
        let mut i: usize = 0;
        while i < count
            invariant
                p0 <= cur <= dn,
                i <= count,
                parse_elems_f64(data@, p0 as int, count as int, seq![]) == parse_elems_f64(
                    data@,
                    cur as int,
                    count - i,
                    built@,
                ),
            decreases count - i,
        {
            if dn - cur < 8 {
                return Err(Error::UnexpectedEof);
            }
            let v = read_u64_be(data, cur);
            built.push(v);
            cur = cur + 8;
            i = i + 1;
        }
        Ok((ListTag::Double(built), cur))
    } else if t == 7 {
        let mut built: Vec<&'a [u8]> = Vec::new();
        let mut cur = p0;
        let mut i: usize = 0;
        assert(slices_view(built@) =~= Seq::<Seq<u8>>::empty());
        while i < count
            invariant
                p0 <= cur <= dn,
                i <= count,
                parse_elems_barr(data@, p0 as int, count as int, seq![]) == parse_elems_barr(
                    data@,
                    cur as int,
                    count - i,
                    slices_view(built@),
                ),
            decreases count - i,
        {
            let (b, p2) = match read_barr(data, cur) {
                Ok(v) => v,
                Err(e) => {
                    return Err(e);
                },
            };
            proof {
                crate::model::lemma_barr_rt(data@, cur as int);
                assert(slices_view(built@.push(b)) =~= slices_view(built@).push(b@));
            }
            built.push(b);
            cur = p2;
            i = i + 1;
        }
        Ok((ListTag::ByteArray(built), cur))
    } else if t == 8 {
        let mut built: Vec<Mutf8Str<'a>> = Vec::new();
        let mut cur = p0;
        let mut i: usize = 0;
        assert(mstrs_view(built@) =~= Seq::<Seq<u8>>::empty());
        while i < count
            invariant
                p0 <= cur <= dn,
                i <= count,
                parse_elems_str(data@, p0 as int, count as int, seq![]) == parse_elems_str(
                    data@,
                    cur as int,
                    count - i,
                    mstrs_view(built@),
                ),
            decreases count - i,
        {
            let (sv, p2) = match read_str(data, cur) {
                Ok(v) => v,
                Err(e) => {
                    return Err(e);
                },
            };
            proof {
                crate::model::lemma_str_rt(data@, cur as int);
                assert(mstrs_view(built@.push(sv)) =~= mstrs_view(built@).push(sv@));
            }
            built.push(sv);
            cur = p2;
            i = i + 1;
        }
        Ok((ListTag::String(built), cur))
    } else if t == 9 {
        if depth >= MAX_DEPTH {
            return Err(Error::MaxDepthExceeded);
        }
        match read_elems_list(data, p0, count, depth + 1) {
            Ok((built, cur)) => Ok((ListTag::List(built), cur)),
            Err(e) => Err(e),
        }
    } else if t == 10 {
        if depth >= MAX_DEPTH {
            return Err(Error::MaxDepthExceeded);
        }
        match read_elems_comp(data, p0, count, depth + 1) {
            Ok((built, cur)) => Ok((ListTag::Compound(built), cur)),
            Err(e) => Err(e),
        }
    } else if t == 11 {
        let mut built: Vec<RawIntArray<'a>> = Vec::new();
        let mut cur = p0;
        let mut i: usize = 0;
        assert(iraws_view(built@) =~= Seq::<Seq<u8>>::empty());
        while i < count
            invariant
                p0 <= cur <= dn,
                i <= count,
                parse_elems_iarr(data@, p0 as int, count as int, seq![]) == parse_elems_iarr(
                    data@,
                    cur as int,
                    count - i,
                    iraws_view(built@),
                ),
            decreases count - i,
        {
            let (a, p2) = match read_iarr(data, cur) {
                Ok(v) => v,
                Err(e) => {
                    return Err(e);
                },
            };
            proof {
                crate::model::lemma_iarr_rt(data@, cur as int);
                assert(iraws_view(built@.push(a)) =~= iraws_view(built@).push(a@));
            }
            built.push(a);
            cur = p2;
            i = i + 1;
        }
        Ok((ListTag::IntArray(built), cur))
    } else {
        let mut built: Vec<RawLongArray<'a>> = Vec::new();
        let mut cur = p0;
        let mut i: usize = 0;
        assert(lraws_view(built@) =~= Seq::<Seq<u8>>::empty());
        while i < count
            invariant
                p0 <= cur <= dn,
                i <= count,
                parse_elems_larr(data@, p0 as int, count as int, seq![]) == parse_elems_larr(
                    data@,
                    cur as int,
                    count - i,
                    lraws_view(built@),
                ),
            decreases count - i,
        {
            let (a, p2) = match read_larr(data, cur) {
                Ok(v) => v,
                Err(e) => {
                    return Err(e);
                },
            };
            proof {
                crate::model::lemma_larr_rt(data@, cur as int);
                assert(lraws_view(built@.push(a)) =~= lraws_view(built@).push(a@));
            }
            built.push(a);
            cur = p2;
            i = i + 1;
        }
        Ok((ListTag::LongArray(built), cur))
    }
}


/// Reads `count` nested-list elements, each one level deeper.
#[verifier::loop_isolation(false)]
#[verifier::rlimit(60)]
fn read_elems_list<'a>(data: &'a [u8], pos: usize, count: usize, depth: u32) -> (r: Result<
    (Vec<ListTag<'a>>, usize),
    Error,
>)
    requires
        5 <= pos <= data@.len(),
        count <= 0x7FFF_FFFF,
    ensures
        match r {
            Ok((es, p2)) => parse_elems_list(
                data@,
                pos as int,
                count as int,
                depth as int,
                seq![],
            ) == Ok::<_, Error>((lists_view(es@), p2 as int)) && p2 <= data@.len(),
            Err(e) => parse_elems_list(data@, pos as int, count as int, depth as int, seq![])
                == Err::<(Seq<ListM>, int), Error>(e),
        },
    decreases data@.len() - pos, 3int,
{
    let dn = data.len();
    let mut built: Vec<ListTag<'a>> = Vec::new();
    let mut cur = pos;
    let mut i: usize = 0;
    assert(lists_view(built@) =~= Seq::<ListM>::empty());
    while i < count
        invariant
            pos <= cur <= dn,
            i <= count,
            parse_elems_list(data@, pos as int, count as int, depth as int, seq![])
                == parse_elems_list(data@, cur as int, count - i, depth as int, lists_view(built@)),
        decreases count - i,
    {
        let (l, p2) = match read_list_payload(data, cur, depth) {
            Ok(v) => v,
            Err(e) => {
                return Err(e);
            },
        };
        proof {
            crate::model::lemma_list_payload_rt(data@, cur as int, depth as int);
            assert(built@.push(l).drop_last() =~= built@);
            assert(lists_view(built@.push(l)) =~= lists_view(built@).push(list_view(l)));
        }
        built.push(l);
        cur = p2;
        i = i + 1;
    }
    Ok((built, cur))
}

/// Reads `count` compound elements, each one level deeper.
#[verifier::loop_isolation(false)]
#[verifier::rlimit(60)]
fn read_elems_comp<'a>(data: &'a [u8], pos: usize, count: usize, depth: u32) -> (r: Result<
    (Vec<CompoundTag<'a>>, usize),
    Error,
>)
    requires
        5 <= pos <= data@.len(),
        count <= 0x7FFF_FFFF,
    ensures
        match r {
            Ok((es, p2)) => parse_elems_comp(
                data@,
                pos as int,
                count as int,
                depth as int,
                seq![],
            ) == Ok::<_, Error>((comps_view(es@), p2 as int)) && p2 <= data@.len(),
            Err(e) => parse_elems_comp(data@, pos as int, count as int, depth as int, seq![])
                == Err::<(Seq<Seq<(Seq<u8>, TagM)>>, int), Error>(e),
        },
    decreases data@.len() - pos, 3int,
{
    let dn = data.len();
    let mut built: Vec<CompoundTag<'a>> = Vec::new();
    let mut cur = pos;
    let mut i: usize = 0;
    assert(comps_view(built@) =~= Seq::<Seq<(Seq<u8>, TagM)>>::empty());
    while i < count
        invariant
            pos <= cur <= dn,
            i <= count,
            parse_elems_comp(data@, pos as int, count as int, depth as int, seq![])
                == parse_elems_comp(data@, cur as int, count - i, depth as int, comps_view(built@)),
        decreases count - i,
    {
        let (es, p2) = match read_entries(data, cur, depth) {
            Ok(v) => v,
            Err(e) => {
                return Err(e);
            },
        };
        let ct = CompoundTag { entries: es };
        proof {
            crate::model::lemma_entries_rt(data@, cur as int, depth as int, seq![]);
            assert(built@.push(ct).drop_last() =~= built@);
            assert(comps_view(built@.push(ct)) =~= comps_view(built@).push(ct@));
        }
        built.push(ct);
        cur = p2;
        i = i + 1;
    }
    Ok((built, cur))
}

/// Reads a compound body: discriminant, name and payload per entry, in
/// order, until the end byte, exactly as the grammar specifies.
#[verifier::loop_isolation(false)]
#[verifier::rlimit(60)]
fn read_entries<'a>(data: &'a [u8], pos: usize, depth: u32) -> (r: Result<
    (Vec<(Mutf8Str<'a>, Tag<'a>)>, usize),
    Error,
>)
    requires
        pos <= data@.len(),
    ensures
        match r {
            Ok((es, p2)) => parse_entries(data@, pos as int, depth as int, seq![]) == Ok::<
                _,
                Error,
            >((entries_view(es@), p2 as int)) && p2 <= data@.len(),
            Err(e) => parse_entries(data@, pos as int, depth as int, seq![]) == Err::<
                (Seq<(Seq<u8>, TagM)>, int),
                Error,
            >(e),
        },
    decreases data@.len() - pos, 0int,
{
    let dn = data.len();
    let mut out: Vec<(Mutf8Str<'a>, Tag<'a>)> = Vec::new();
    let mut cur = pos;
    assert(entries_view(out@) =~= Seq::<(Seq<u8>, TagM)>::empty());
    loop
        invariant
            pos <= cur <= dn,
            parse_entries(data@, pos as int, depth as int, seq![]) == parse_entries(
                data@,
                cur as int,
                depth as int,
                entries_view(out@),
            ),
        decreases data@.len() - cur,
    {
        if dn - cur < 1 {
            return Err(Error::UnexpectedEof);
        }
        let t = read_u8(data, cur);
        if t == 0 {
            return Ok((out, cur + 1));
        }
        if t > 12 {
            return Err(Error::InvalidTagType(t));
        }
        let (name, p1) = match read_str(data, cur + 1) {
            Ok(v) => v,
            Err(e) => {
                return Err(e);
            },
        };
        proof {
            crate::model::lemma_str_rt(data@, cur as int + 1);
        }
        let (tag, p2) = match read_payload(data, p1, t, depth) {
            Ok(v) => v,
            Err(e) => {
                return Err(e);
            },
        };
        proof {
            crate::model::lemma_payload_rt(data@, p1 as int, t, depth as int);
            assert(out@.push((name, tag)).drop_last() =~= out@);
            assert(entries_view(out@.push((name, tag))) =~= entries_view(out@).push(
                (name@, tag@),
            ));
        }
        out.push((name, tag));
        cur = p2;
    }
}

} // verus!

verus! {

impl<'a> Tag<'a> {
    /// The numerical discriminant of the tag's type.
    pub fn id(&self) -> (r: u8)
        ensures
            r == tag_id_of(self@),
    {
        match self {
            Tag::Byte(_) => 1,
            Tag::Short(_) => 2,
            Tag::Int(_) => 3,
            Tag::Long(_) => 4,
            Tag::Float(_) => 5,
            Tag::Double(_) => 6,
            Tag::ByteArray(_) => 7,
            Tag::String(_) => 8,
            Tag::List(_) => 9,
            Tag::Compound(_) => 10,
            Tag::IntArray(_) => 11,
            Tag::LongArray(_) => 12,
        }
    }
}

/// Appends every byte of the slice.
fn write_bytes(out: &mut Vec<u8>, b: &[u8])
    ensures
        final(out)@ == old(out)@ + b@,
{
    let n = b.len();
    let mut i: usize = 0;
    while i < n
        invariant
            i <= n,
            n == b@.len(),
            out@ == old(out)@ + b@.take(i as int),
        decreases n - i,
    {
        out.push(*vstd::slice::slice_index_get(b, i));
        assert(out@ =~= old(out)@ + b@.take(i as int + 1));
        i += 1;
    }
    assert(b@.take(n as int) =~= b@);
}

/// Appends a length-prefixed string field.
fn write_str_field(out: &mut Vec<u8>, s: &Mutf8Str)
    requires
        s@.len() <= 0xFFFF,
    ensures
        final(out)@ == old(out)@ + enc_str(s@),
{
    let len = s.len();
    crate::wire::write_u16_be(out, len as u16);
    write_bytes(out, s.as_bytes());
    assert(out@ =~= old(out)@ + enc_str(s@));
}

/// Appends one tag's payload bytes (no leading discriminant byte); the
/// exact structural mirror of the payload reader.
#[verifier::loop_isolation(false)]
#[verifier::rlimit(60)]
pub fn write_payload(t: &Tag, out: &mut Vec<u8>)
    requires
        wf_tag(t@),
    ensures
        final(out)@ == old(out)@ + enc_payload(t@),
    decreases t,
{
    match t {
        Tag::Byte(v) => {
            out.push(crate::wire::to_u8(*v));
            assert(out@ =~= old(out)@ + enc_payload(t@));
        },
        Tag::Short(v) => {
            crate::wire::write_u16_be(out, crate::wire::to_u16(*v));
        },
        Tag::Int(v) => {
            crate::wire::write_u32_be(out, crate::wire::to_u32(*v));
        },
        Tag::Long(v) => {
            crate::wire::write_u64_be(out, crate::wire::to_u64(*v));
        },
        Tag::Float(v) => {
            crate::wire::write_u32_be(out, *v);
        },
        Tag::Double(v) => {
            crate::wire::write_u64_be(out, *v);
        },
        Tag::ByteArray(b) => {
            crate::wire::write_u32_be(out, b.len() as u32);
            write_bytes(out, b);
            assert(out@ =~= old(out)@ + enc_payload(t@));
        },
        Tag::String(s) => {
            write_str_field(out, s);
        },
        Tag::List(l) => {
            write_list(l, out);
        },
        Tag::Compound(c) => {
            write_entries(&c.entries, out);
            out.push(0);
            assert(out@ =~= old(out)@ + enc_payload(t@));
        },
        Tag::IntArray(a) => {
            crate::wire::write_u32_be(out, a.len() as u32);
            write_bytes(out, a.as_bytes());
            assert(out@ =~= old(out)@ + enc_payload(t@));
        },
        Tag::LongArray(a) => {
            crate::wire::write_u32_be(out, a.len() as u32);
            write_bytes(out, a.as_bytes());
            assert(out@ =~= old(out)@ + enc_payload(t@));
        },
    }
}

/// Appends a list payload: element-type byte, count, then each element's
/// bytes with no per-element type byte.
#[verifier::loop_isolation(false)]
#[verifier::rlimit(60)]
pub fn write_list(l: &ListTag, out: &mut Vec<u8>)
    requires
        wf_list(l@),
    ensures
        final(out)@ == old(out)@ + enc_list(l@),
    decreases l,
{
    broadcast use lemma_lists_view_index;
    broadcast use lemma_comps_view_index;

    match l {
        ListTag::Empty(t) => {
            out.push(*t);
            crate::wire::write_u32_be(out, 0);
            assert(out@ =~= old(out)@ + enc_list(l@));
        },
        ListTag::Byte(v) => {
            out.push(1);
            crate::wire::write_u32_be(out, v.len() as u32);
            let n = v.len();
            let mut i: usize = 0;
            while i < n
                invariant
                    i <= n,
                    out@ == old(out)@ + seq![1u8] + crate::wire::enc_u32(v@.len() as u32)
                        + enc_i8s(v@.take(i as int)),
                decreases n - i,
            {
                proof {
                    crate::model::lemma_enc_i8s_snoc(v@.take(i as int), v@[i as int]);
                    assert(v@.take(i as int + 1) =~= v@.take(i as int).push(v@[i as int]));
                }
                out.push(crate::wire::to_u8(v[i]));
                i += 1;
            }
            assert(v@.take(n as int) =~= v@);
            assert(out@ =~= old(out)@ + enc_list(l@));
        },
        ListTag::Short(v) => {
            out.push(2);
            crate::wire::write_u32_be(out, v.len() as u32);
            let n = v.len();
            let mut i: usize = 0;
            while i < n
                invariant
                    i <= n,
                    out@ == old(out)@ + seq![2u8] + crate::wire::enc_u32(v@.len() as u32)
                        + enc_i16s(v@.take(i as int)),
                decreases n - i,
            {
                proof {
                    crate::model::lemma_enc_i16s_snoc(v@.take(i as int), v@[i as int]);
                    assert(v@.take(i as int + 1) =~= v@.take(i as int).push(v@[i as int]));
                }
                crate::wire::write_u16_be(out, crate::wire::to_u16(v[i]));
                i += 1;
            }
            assert(v@.take(n as int) =~= v@);
            assert(out@ =~= old(out)@ + enc_list(l@));
        },
        ListTag::Int(a) => {
            out.push(3);
            crate::wire::write_u32_be(out, a.len() as u32);
            write_bytes(out, a.as_bytes());
            assert(out@ =~= old(out)@ + enc_list(l@));
        },
        ListTag::Long(a) => {
            out.push(4);
            crate::wire::write_u32_be(out, a.len() as u32);
            write_bytes(out, a.as_bytes());
            assert(out@ =~= old(out)@ + enc_list(l@));
        },
        ListTag::Float(v) => {
            out.push(5);
            crate::wire::write_u32_be(out, v.len() as u32);
            let n = v.len();
            let mut i: usize = 0;
            while i < n
                invariant
                    i <= n,
                    out@ == old(out)@ + seq![5u8] + crate::wire::enc_u32(v@.len() as u32)
                        + enc_f32s(v@.take(i as int)),
                decreases n - i,
            {
                proof {
                    crate::model::lemma_enc_f32s_snoc(v@.take(i as int), v@[i as int]);
                    assert(v@.take(i as int + 1) =~= v@.take(i as int).push(v@[i as int]));
                }
                crate::wire::write_u32_be(out, v[i]);
                i += 1;
            }
            assert(v@.take(n as int) =~= v@);
            assert(out@ =~= old(out)@ + enc_list(l@));
        },
        ListTag::Double(v) => {
            out.push(6);
            crate::wire::write_u32_be(out, v.len() as u32);
            let n = v.len();
            let mut i: usize = 0;
            while i < n
                invariant
                    i <= n,
                    out@ == old(out)@ + seq![6u8] + crate::wire::enc_u32(v@.len() as u32)
                        + enc_f64s(v@.take(i as int)),
                decreases n - i,
            {
                proof {
                    crate::model::lemma_enc_f64s_snoc(v@.take(i as int), v@[i as int]);
                    assert(v@.take(i as int + 1) =~= v@.take(i as int).push(v@[i as int]));
                }
                crate::wire::write_u64_be(out, v[i]);
                i += 1;
            }
            assert(v@.take(n as int) =~= v@);
            assert(out@ =~= old(out)@ + enc_list(l@));
        },
        ListTag::ByteArray(v) => {
            out.push(7);
            crate::wire::write_u32_be(out, v.len() as u32);
            let n = v.len();
            let mut i: usize = 0;
            assert(slices_view(v@).take(0) =~= slices_view(v@.take(0)));
            while i < n
                invariant
                    i <= n,
                    out@ == old(out)@ + seq![7u8] + crate::wire::enc_u32(v@.len() as u32)
                        + enc_barrs(slices_view(v@).take(i as int)),
                decreases n - i,
            {
                proof {
                    crate::model::lemma_enc_barrs_snoc(
                        slices_view(v@).take(i as int),
                        v@[i as int]@,
                    );
                    assert(slices_view(v@).take(i as int + 1) =~= slices_view(v@).take(
                        i as int,
                    ).push(v@[i as int]@));
                }
                assert(slices_view(v@)[i as int] == v@[i as int]@);
                let b: &[u8] = v[i];
                crate::wire::write_u32_be(out, b.len() as u32);
                write_bytes(out, b);
                i += 1;
            }
            assert(slices_view(v@).take(n as int) =~= slices_view(v@));
            assert(out@ =~= old(out)@ + enc_list(l@));
        },
        ListTag::String(v) => {
            out.push(8);
            crate::wire::write_u32_be(out, v.len() as u32);
            let n = v.len();
            let mut i: usize = 0;
            while i < n
                invariant
                    i <= n,
                    out@ == old(out)@ + seq![8u8] + crate::wire::enc_u32(v@.len() as u32)
                        + enc_strs(mstrs_view(v@).take(i as int)),
                decreases n - i,
            {
                proof {
                    crate::model::lemma_enc_strs_snoc(mstrs_view(v@).take(i as int), v@[i as int]@);
                    assert(mstrs_view(v@).take(i as int + 1) =~= mstrs_view(v@).take(i as int).push(
                        v@[i as int]@,
                    ));
                }
                assert(mstrs_view(v@)[i as int] == v@[i as int]@);
                write_str_field(out, &v[i]);
                i += 1;
            }
            assert(mstrs_view(v@).take(n as int) =~= mstrs_view(v@));
            assert(out@ =~= old(out)@ + enc_list(l@));
        },
        ListTag::List(v) => {
            out.push(9);
            crate::wire::write_u32_be(out, v.len() as u32);
            let n = v.len();
            let mut i: usize = 0;
            while i < n
                invariant
                    i <= n,
                    out@ == old(out)@ + seq![9u8] + crate::wire::enc_u32(v@.len() as u32)
                        + enc_list_elems(lists_view(v@).take(i as int)),
                decreases n - i,
            {
                proof {
                    crate::model::lemma_enc_list_elems_snoc(
                        lists_view(v@).take(i as int),
                        list_view(v@[i as int]),
                    );
                    assert(lists_view(v@).take(i as int + 1) =~= lists_view(v@).take(i as int).push(
                        list_view(v@[i as int]),
                    ));
                }
                assert(wf_list(lists_view(v@)[i as int]));
                write_list(&v[i], out);
                i += 1;
            }
            assert(lists_view(v@).take(n as int) =~= lists_view(v@));
            assert(out@ =~= old(out)@ + enc_list(l@));
        },
        ListTag::Compound(v) => {
            out.push(10);
            crate::wire::write_u32_be(out, v.len() as u32);
            let n = v.len();
            let mut i: usize = 0;
            while i < n
                invariant
                    i <= n,
                    out@ == old(out)@ + seq![10u8] + crate::wire::enc_u32(v@.len() as u32)
                        + enc_comp_elems(comps_view(v@).take(i as int)),
                decreases n - i,
            {
                proof {
                    crate::model::lemma_enc_comp_elems_snoc(
                        comps_view(v@).take(i as int),
                        v@[i as int]@,
                    );
                    assert(comps_view(v@).take(i as int + 1) =~= comps_view(v@).take(i as int).push(
                        v@[i as int]@,
                    ));
                }
                assert(wf_entries(comps_view(v@)[i as int]));
                write_entries(&v[i].entries, out);
                out.push(0);
                i += 1;
            }
            assert(comps_view(v@).take(n as int) =~= comps_view(v@));
            assert(out@ =~= old(out)@ + enc_list(l@));
        },
        ListTag::IntArray(v) => {
            out.push(11);
            crate::wire::write_u32_be(out, v.len() as u32);
            let n = v.len();
            let mut i: usize = 0;
            while i < n
                invariant
                    i <= n,
                    out@ == old(out)@ + seq![11u8] + crate::wire::enc_u32(v@.len() as u32)
                        + enc_iarrs(iraws_view(v@).take(i as int)),
                decreases n - i,
            {
                proof {
                    crate::model::lemma_enc_iarrs_snoc(iraws_view(v@).take(i as int), v@[i as int]@);
                    assert(iraws_view(v@).take(i as int + 1) =~= iraws_view(v@).take(i as int).push(
                        v@[i as int]@,
                    ));
                }
                assert(iraws_view(v@)[i as int] == v@[i as int]@);
                let a = &v[i];
                crate::wire::write_u32_be(out, a.len() as u32);
                write_bytes(out, a.as_bytes());
                i += 1;
            }
            assert(iraws_view(v@).take(n as int) =~= iraws_view(v@));
            assert(out@ =~= old(out)@ + enc_list(l@));
        },
        ListTag::LongArray(v) => {
            out.push(12);
            crate::wire::write_u32_be(out, v.len() as u32);
            let n = v.len();
            let mut i: usize = 0;
            while i < n
                invariant
                    i <= n,
                    out@ == old(out)@ + seq![12u8] + crate::wire::enc_u32(v@.len() as u32)
                        + enc_larrs(lraws_view(v@).take(i as int)),
                decreases n - i,
            {
                proof {
                    crate::model::lemma_enc_larrs_snoc(lraws_view(v@).take(i as int), v@[i as int]@);
                    assert(lraws_view(v@).take(i as int + 1) =~= lraws_view(v@).take(i as int).push(
                        v@[i as int]@,
                    ));
                }
                assert(lraws_view(v@)[i as int] == v@[i as int]@);
                let a = &v[i];
                crate::wire::write_u32_be(out, a.len() as u32);
                write_bytes(out, a.as_bytes());
                i += 1;
            }
            assert(lraws_view(v@).take(n as int) =~= lraws_view(v@));
            assert(out@ =~= old(out)@ + enc_list(l@));
        },
    }
}

/// Appends a compound's pairs in stored order, without the trailing end
/// byte, which the caller emits.
#[verifier::loop_isolation(false)]
#[verifier::rlimit(60)]
pub fn write_entries(es: &Vec<(Mutf8Str, Tag)>, out: &mut Vec<u8>)
    requires
        wf_entries(entries_view(es@)),
    ensures
        final(out)@ == old(out)@ + enc_entries(entries_view(es@)),
    decreases es,
{
    broadcast use lemma_entries_view_index;

    let n = es.len();
    let mut i: usize = 0;
    while i < n
        invariant
            i <= n,
            out@ == old(out)@ + enc_entries(entries_view(es@).take(i as int)),
        decreases n - i,
    {
        proof {
            crate::model::lemma_enc_entries_snoc(
                entries_view(es@).take(i as int),
                entries_view(es@)[i as int],
            );
            assert(entries_view(es@).take(i as int + 1) =~= entries_view(es@).take(i as int).push(
                entries_view(es@)[i as int],
            ));
        }
        let t = es[i].1.id();
        out.push(t);
        write_str_field(out, &es[i].0);
        write_payload(&es[i].1, out);
        i += 1;
    }
    assert(entries_view(es@).take(n as int) =~= entries_view(es@));
}

} // verus!

verus! {

/// The first value stored under `name`, if any; later duplicates are
/// ignored, as re-reading the document would ignore them.
pub open spec fn find_entry(es: Seq<(Seq<u8>, TagM)>, name: Seq<u8>) -> Option<TagM>
    decreases es.len(),
{
    if es.len() == 0 {
        Option::None
    } else if es[0].0 == name {
        Option::Some(es[0].1)
    } else {
        find_entry(es.drop_first(), name)
    }
}

/// Compares two byte slices for equality.
fn bytes_eq(a: &[u8], b: &[u8]) -> (r: bool)
    ensures
        r == (a@ == b@),
{
    let n = a.len();
    if n != b.len() {
        return false;
    }
    let mut i: usize = 0;
    while i < n
        invariant
            i <= n,
            n == a@.len() && n == b@.len(),
            forall|j: int| 0 <= j < i ==> a@[j] == b@[j],
        decreases n - i,
    {
        if *vstd::slice::slice_index_get(a, i) != *vstd::slice::slice_index_get(b, i) {
            return false;
        }
        i += 1;
    }
    assert(a@ =~= b@);
    true
}

impl<'a> CompoundTag<'a> {
    /// Looks a name up, by linear scan over the stored order, returning the
    /// first match; absence is a normal outcome, not an error.
    #[verifier::loop_isolation(false)]
    pub fn get(&self, name: &str) -> (r: Option<&Tag<'a>>)
        ensures
            match r {
                Some(t) => find_entry(self@, name.spec_bytes()) == Option::Some(t@),
                None => find_entry(self@, name.spec_bytes()) is None,
            },
    {
        broadcast use lemma_entries_view_index;

        let nm = name.as_bytes();
        let n = self.entries.len();
        let mut i: usize = 0;
        assert(self@.skip(0) =~= self@);
        while i < n
            invariant
                i <= n,
                n == self@.len(),
                nm@ == name.spec_bytes(),
                find_entry(self@, nm@) == find_entry(self@.skip(i as int), nm@),
            decreases n - i,
        {
            assert(self@.skip(i as int)[0] == self@[i as int]);
            if bytes_eq(self.entries[i].0.as_bytes(), nm) {
                return Some(&self.entries[i].1);
            }
            assert(self@.skip(i as int).drop_first() =~= self@.skip(i as int + 1));
            i += 1;
        }
        assert(self@.skip(n as int) =~= Seq::<(Seq<u8>, TagM)>::empty());
        None
    }

    /// The pair count.
    pub fn len(&self) -> (r: usize)
        ensures
            r == self@.len(),
    {
        broadcast use lemma_entries_view_index;

        self.entries.len()
    }

    /// The stored value under `name` when it is an 8-bit integer.
    pub fn byte(&self, name: &str) -> (r: Option<i8>)
        ensures
            r == (match find_entry(self@, name.spec_bytes()) {
                Option::Some(TagM::Byte(v)) => Option::Some(v),
                _ => Option::<i8>::None,
            }),
    {
        match self.get(name) {
            Some(t) => match t {
                Tag::Byte(v) => Some(*v),
                _ => None,
            },
            None => None,
        }
    }

    /// The stored value under `name` when it is a 16-bit integer.
    pub fn short(&self, name: &str) -> (r: Option<i16>)
        ensures
            r == (match find_entry(self@, name.spec_bytes()) {
                Option::Some(TagM::Short(v)) => Option::Some(v),
                _ => Option::<i16>::None,
            }),
    {
        match self.get(name) {
            Some(t) => match t {
                Tag::Short(v) => Some(*v),
                _ => None,
            },
            None => None,
        }
    }

    /// The stored value under `name` when it is a 32-bit integer; a value
    /// of any other type, a float included, yields an absent result, never
    /// a coercion.
    pub fn int32(&self, name: &str) -> (r: Option<i32>)
        ensures
            r == (match find_entry(self@, name.spec_bytes()) {
                Option::Some(TagM::Int(v)) => Option::Some(v),
                _ => Option::<i32>::None,
            }),
    {
        match self.get(name) {
            Some(t) => match t {
                Tag::Int(v) => Some(*v),
                _ => None,
            },
            None => None,
        }
    }

    /// The stored value under `name` when it is a 64-bit integer.
    pub fn long(&self, name: &str) -> (r: Option<i64>)
        ensures
            r == (match find_entry(self@, name.spec_bytes()) {
                Option::Some(TagM::Long(v)) => Option::Some(v),
                _ => Option::<i64>::None,
            }),
    {
        match self.get(name) {
            Some(t) => match t {
                Tag::Long(v) => Some(*v),
                _ => None,
            },
            None => None,
        }
    }

    /// The raw bit pattern of the value under `name` when it is a 32-bit
    /// float; a value of any other type, an integer included, yields an
    /// absent result, never a coercion.
    pub fn float_bits(&self, name: &str) -> (r: Option<u32>)
        ensures
            r == (match find_entry(self@, name.spec_bytes()) {
                Option::Some(TagM::Float(v)) => Option::Some(v),
                _ => Option::<u32>::None,
            }),
    {
        match self.get(name) {
            Some(t) => match t {
                Tag::Float(v) => Some(*v),
                _ => None,
            },
            None => None,
        }
    }

    /// The raw bit pattern of the value under `name` when it is a 64-bit
    /// float.
    pub fn double_bits(&self, name: &str) -> (r: Option<u64>)
        ensures
            r == (match find_entry(self@, name.spec_bytes()) {
                Option::Some(TagM::Double(v)) => Option::Some(v),
                _ => Option::<u64>::None,
            }),
    {
        match self.get(name) {
            Some(t) => match t {
                Tag::Double(v) => Some(*v),
                _ => None,
            },
            None => None,
        }
    }

    /// The stored value under `name` when it is a string.
    pub fn string(&self, name: &str) -> (r: Option<&Mutf8Str<'a>>)
        ensures
            match r {
                Some(s) => find_entry(self@, name.spec_bytes()) == Option::Some(
                    TagM::String(s@),
                ),
                None => !(find_entry(self@, name.spec_bytes()) matches Option::Some(
                    TagM::String(_),
                )),
            },
    {
        match self.get(name) {
            Some(t) => match t {
                Tag::String(s) => Some(s),
                _ => None,
            },
            None => None,
        }
    }

    /// The stored value under `name` when it is a byte array.
    pub fn byte_array(&self, name: &str) -> (r: Option<&'a [u8]>)
        ensures
            match r {
                Some(b) => find_entry(self@, name.spec_bytes()) == Option::Some(
                    TagM::ByteArray(b@),
                ),
                None => !(find_entry(self@, name.spec_bytes()) matches Option::Some(
                    TagM::ByteArray(_),
                )),
            },
    {
        match self.get(name) {
            Some(t) => match t {
                Tag::ByteArray(b) => Some(*b),
                _ => None,
            },
            None => None,
        }
    }

    /// The stored value under `name` when it is a list.
    pub fn list(&self, name: &str) -> (r: Option<&ListTag<'a>>)
        ensures
            match r {
                Some(l) => find_entry(self@, name.spec_bytes()) == Option::Some(TagM::List(l@)),
                None => !(find_entry(self@, name.spec_bytes()) matches Option::Some(
                    TagM::List(_),
                )),
            },
    {
        match self.get(name) {
            Some(t) => match t {
                Tag::List(l) => Some(l),
                _ => None,
            },
            None => None,
        }
    }

    /// The stored value under `name` when it is a compound.
    pub fn compound(&self, name: &str) -> (r: Option<&CompoundTag<'a>>)
        ensures
            match r {
                Some(c) => find_entry(self@, name.spec_bytes()) == Option::Some(
                    TagM::Compound(c@),
                ),
                None => !(find_entry(self@, name.spec_bytes()) matches Option::Some(
                    TagM::Compound(_),
                )),
            },
    {
        match self.get(name) {
            Some(t) => match t {
                Tag::Compound(c) => Some(c),
                _ => None,
            },
            None => None,
        }
    }

    /// The stored value under `name` when it is a 32-bit integer array,
    /// converted to native values.
    pub fn int_array(&self, name: &str) -> (r: Option<Vec<i32>>)
        ensures
            match r {
                Some(v) => (match find_entry(self@, name.spec_bytes()) {
                    Option::Some(TagM::IntArray(b)) => v@ == crate::raw_list::ints_of(b),
                    _ => false,
                }),
                None => !(find_entry(self@, name.spec_bytes()) matches Option::Some(
                    TagM::IntArray(_),
                )),
            },
    {
        match self.get(name) {
            Some(t) => match t {
                Tag::IntArray(a) => Some(a.to_vec()),
                _ => None,
            },
            None => None,
        }
    }

    /// The stored value under `name` when it is a 64-bit integer array,
    /// converted to native values.
    pub fn long_array(&self, name: &str) -> (r: Option<Vec<i64>>)
        ensures
            match r {
                Some(v) => (match find_entry(self@, name.spec_bytes()) {
                    Option::Some(TagM::LongArray(b)) => v@ == crate::raw_list::longs_of(b),
                    _ => false,
                }),
                None => !(find_entry(self@, name.spec_bytes()) matches Option::Some(
                    TagM::LongArray(_),
                )),
            },
    {
        match self.get(name) {
            Some(t) => match t {
                Tag::LongArray(a) => Some(a.to_vec()),
                _ => None,
            },
            None => None,
        }
    }

    /// Appends the pairs in stored order, without a trailing end byte; the
    /// caller frames the body, as the root writer does.
    pub fn write(&self, data: &mut Vec<u8>)
        requires
            wf_entries(self@),
        ensures
            final(data)@ == old(data)@ + enc_entries(self@),
    {
        write_entries(&self.entries, data);
    }
}

impl<'a> ListTag<'a> {
    /// The elements when this is a list of 32-bit integers; an empty list
    /// of any declared type also counts, with no elements.
    pub fn ints(&self) -> (r: Option<Vec<i32>>)
        ensures
            match r {
                Some(v) => (self@ matches ListM::Int(b) && v@ == crate::raw_list::ints_of(b)) || (
                self@ is Empty && v@.len() == 0),
                None => !(self@ is Int) && !(self@ is Empty),
            },
    {
        match self {
            ListTag::Int(a) => Some(a.to_vec()),
            ListTag::Empty(_) => Some(Vec::new()),
            _ => None,
        }
    }

    /// The elements when this is a list of 64-bit integers; an empty list
    /// of any declared type also counts, with no elements.
    pub fn longs(&self) -> (r: Option<Vec<i64>>)
        ensures
            match r {
                Some(v) => (self@ matches ListM::Long(b) && v@ == crate::raw_list::longs_of(b)) || (
                self@ is Empty && v@.len() == 0),
                None => !(self@ is Long) && !(self@ is Empty),
            },
    {
        match self {
            ListTag::Long(a) => Some(a.to_vec()),
            ListTag::Empty(_) => Some(Vec::new()),
            _ => None,
        }
    }

    /// The raw bit patterns when this is a list of 32-bit floats; an empty
    /// list of any declared type also counts, with no elements.
    pub fn floats_bits(&self) -> (r: Option<Vec<u32>>)
        ensures
            match r {
                Some(v) => self@ == ListM::Float(v@) || (self@ is Empty && v@.len() == 0),
                None => !(self@ is Float) && !(self@ is Empty),
            },
    {
        match self {
            ListTag::Float(v) => Some(v.clone()),
            ListTag::Empty(_) => Some(Vec::new()),
            _ => None,
        }
    }

    /// Appends this list's payload bytes.
    pub fn write(&self, data: &mut Vec<u8>)
        requires
            wf_list(self@),
        ensures
            final(data)@ == old(data)@ + enc_list(self@),
    {
        write_list(self, data);
    }
}

impl<'a> Nbt<'a> {
    /// The name of the root compound; often an empty string.
    pub fn name(&self) -> (r: &Mutf8Str<'a>)
        ensures
            r@ == self@.name,
    {
        &self.name
    }

    /// The root compound's pairs.
    pub fn tag(&self) -> (r: &CompoundTag<'a>)
        ensures
            r@ == self@.entries,
    {
        &self.tag
    }

    /// The stored value under `name` in the root compound, when a string.
    pub fn string(&self, name: &str) -> (r: Option<&Mutf8Str<'a>>)
        ensures
            match r {
                Some(s) => find_entry(self@.entries, name.spec_bytes()) == Option::Some(
                    TagM::String(s@),
                ),
                None => !(find_entry(self@.entries, name.spec_bytes()) matches Option::Some(
                    TagM::String(_),
                )),
            },
    {
        self.tag.string(name)
    }

    /// The stored value under `name` in the root compound, when a 32-bit
    /// integer.
    pub fn int32(&self, name: &str) -> (r: Option<i32>)
        ensures
            r == (match find_entry(self@.entries, name.spec_bytes()) {
                Option::Some(TagM::Int(v)) => Option::Some(v),
                _ => Option::<i32>::None,
            }),
    {
        self.tag.int32(name)
    }

    /// The stored value under `name` in the root compound, when a list.
    pub fn list(&self, name: &str) -> (r: Option<&ListTag<'a>>)
        ensures
            match r {
                Some(l) => find_entry(self@.entries, name.spec_bytes()) == Option::Some(
                    TagM::List(l@),
                ),
                None => !(find_entry(self@.entries, name.spec_bytes()) matches Option::Some(
                    TagM::List(_),
                )),
            },
    {
        self.tag.list(name)
    }

    /// Writes the whole document: compound discriminant, root name, the
    /// pairs, then the root's end byte.
    pub fn write(&self, data: &mut Vec<u8>)
        requires
            wf_document(OptNbtM::Present(self@)),
        ensures
            final(data)@ == old(data)@ + enc_document(OptNbtM::Present(self@)),
    {
        data.push(10);
        write_str_field(data, &self.name);
        write_entries(&self.tag.entries, data);
        data.push(0);
        assert(data@ =~= old(data)@ + enc_document(OptNbtM::Present(self@)));
    }
}

impl<'a> OptionalNbt<'a> {
    /// Reads a document from the given bytes. A leading end byte is the
    /// absent document; any other non-compound discriminant is rejected.
    /// The result mirrors the parsing grammar exactly, error for error.
    pub fn read(data: &'a [u8]) -> (r: Result<OptionalNbt<'a>, Error>)
        ensures
            match r {
                Ok(o) => parse_document(data@) is Ok && o@ == parse_document(data@)->Ok_0.0,
                Err(e) => parse_document(data@) == Err::<(OptNbtM, int), Error>(e),
            },
    {
        let dn = data.len();
        if dn < 1 {
            return Err(Error::UnexpectedEof);
        }
        let t0 = read_u8(data, 0);
        if t0 == 0 {
            return Ok(OptionalNbt::Absent);
        }
        if t0 != 10 {
            return Err(Error::InvalidRootType(t0));
        }
        let (name, p1) = match read_str(data, 1) {
            Ok(v) => v,
            Err(e) => {
                return Err(e);
            },
        };
        proof {
            crate::model::lemma_str_rt(data@, 1);
        }
        let (entries, _p2) = match read_entries(data, p1, 1) {
            Ok(v) => v,
            Err(e) => {
                return Err(e);
            },
        };
        Ok(OptionalNbt::Present(Nbt { name, tag: CompoundTag { entries } }))
    }

    /// Writes the document: a single end byte when absent, else the full
    /// root framing.
    pub fn write(&self, data: &mut Vec<u8>)
        requires
            wf_document(self@),
        ensures
            final(data)@ == old(data)@ + enc_document(self@),
    {
        match self {
            OptionalNbt::Present(nbt) => {
                nbt.write(data);
            },
            OptionalNbt::Absent => {
                data.push(0);
                assert(data@ =~= old(data)@ + enc_document(self@));
            },
        }
    }

    /// The present document; the absent case is excluded by contract, so
    /// this never aborts.
    pub fn unwrap(self) -> (r: Nbt<'a>)
        requires
            self@ is Present,
        ensures
            self@ == OptNbtM::Present(r@),
    {
        match self {
            OptionalNbt::Present(nbt) => nbt,
            OptionalNbt::Absent => vstd::pervasive::unreached(),
        }
    }

    /// True when a root document is present.
    pub fn is_some(&self) -> (r: bool)
        ensures
            r == (self@ is Present),
    {
        match self {
            OptionalNbt::Present(_) => true,
            OptionalNbt::Absent => false,
        }
    }

    /// True when the document is absent.
    pub fn is_none(&self) -> (r: bool)
        ensures
            r == (self@ is Absent),
    {
        !self.is_some()
    }
}

} // verus!

verus! {

impl<'a> Tag<'a> {
    /// The value when this is an 8-bit integer.
    pub fn byte(&self) -> (r: Option<i8>)
        ensures
            r == (match self@ {
                TagM::Byte(v) => Option::Some(v),
                _ => Option::<i8>::None,
            }),
    {
        match self {
            Tag::Byte(v) => Some(*v),
            _ => None,
        }
    }

    /// The value when this is a 16-bit integer.
    pub fn short(&self) -> (r: Option<i16>)
        ensures
            r == (match self@ {
                TagM::Short(v) => Option::Some(v),
                _ => Option::<i16>::None,
            }),
    {
        match self {
            Tag::Short(v) => Some(*v),
            _ => None,
        }
    }

    /// The value when this is a 32-bit integer; a value of any other type,
    /// a float included, yields an absent result, never a widened or
    /// coerced value.
    pub fn int32(&self) -> (r: Option<i32>)
        ensures
            r == (match self@ {
                TagM::Int(v) => Option::Some(v),
                _ => Option::<i32>::None,
            }),
    {
        match self {
            Tag::Int(v) => Some(*v),
            _ => None,
        }
    }

    /// The value when this is a 64-bit integer.
    pub fn long(&self) -> (r: Option<i64>)
        ensures
            r == (match self@ {
                TagM::Long(v) => Option::Some(v),
                _ => Option::<i64>::None,
            }),
    {
        match self {
            Tag::Long(v) => Some(*v),
            _ => None,
        }
    }

    /// The raw bit pattern when this is a 32-bit float; a value of any
    /// other type, an integer included, yields an absent result.
    pub fn float_bits(&self) -> (r: Option<u32>)
        ensures
            r == (match self@ {
                TagM::Float(v) => Option::Some(v),
                _ => Option::<u32>::None,
            }),
    {
        match self {
            Tag::Float(v) => Some(*v),
            _ => None,
        }
    }

    /// The raw bit pattern when this is a 64-bit float.
    pub fn double_bits(&self) -> (r: Option<u64>)
        ensures
            r == (match self@ {
                TagM::Double(v) => Option::Some(v),
                _ => Option::<u64>::None,
            }),
    {
        match self {
            Tag::Double(v) => Some(*v),
            _ => None,
        }
    }

    /// The bytes when this is a byte array.
    pub fn byte_array(&self) -> (r: Option<&'a [u8]>)
        ensures
            match r {
                Some(b) => self@ == TagM::ByteArray(b@),
                None => !(self@ is ByteArray),
            },
    {
        match self {
            Tag::ByteArray(b) => Some(*b),
            _ => None,
        }
    }

    /// The text when this is a string.
    pub fn string(&self) -> (r: Option<&Mutf8Str<'a>>)
        ensures
            match r {
                Some(s) => self@ == TagM::String(s@),
                None => !(self@ is String),
            },
    {
        match self {
            Tag::String(s) => Some(s),
            _ => None,
        }
    }

    /// The list when this is a list.
    pub fn list(&self) -> (r: Option<&ListTag<'a>>)
        ensures
            match r {
                Some(l) => self@ == TagM::List(l@),
                None => !(self@ is List),
            },
    {
        match self {
            Tag::List(l) => Some(l),
            _ => None,
        }
    }

    /// The compound when this is a compound.
    pub fn compound(&self) -> (r: Option<&CompoundTag<'a>>)
        ensures
            match r {
                Some(c) => self@ == TagM::Compound(c@),
                None => !(self@ is Compound),
            },
    {
        match self {
            Tag::Compound(c) => Some(c),
            _ => None,
        }
    }

    /// The elements, converted to native values, when this is a 32-bit
    /// integer array.
    pub fn int_array(&self) -> (r: Option<Vec<i32>>)
        ensures
            match r {
                Some(v) => (self@ matches TagM::IntArray(b) && v@ == crate::raw_list::ints_of(b)),
                None => !(self@ is IntArray),
            },
    {
        match self {
            Tag::IntArray(a) => Some(a.to_vec()),
            _ => None,
        }
    }

    /// The elements, converted to native values, when this is a 64-bit
    /// integer array.
    pub fn long_array(&self) -> (r: Option<Vec<i64>>)
        ensures
            match r {
                Some(v) => (self@ matches TagM::LongArray(b) && v@ == crate::raw_list::longs_of(
                    b,
                )),
                None => !(self@ is LongArray),
            },
    {
        match self {
            Tag::LongArray(a) => Some(a.to_vec()),
            _ => None,
        }
    }
}

} // verus!
