//! Little-endian primitives shared by the `.rtw` container and its payloads:
//! fixed-width integers, length-prefixed byte blocks and the error a reader
//! reports when the input is malformed.
use vstd::bytes::{
    spec_u16_from_le_bytes, spec_u16_to_le_bytes, spec_u32_from_le_bytes, spec_u32_to_le_bytes,
    spec_u64_from_le_bytes, spec_u64_to_le_bytes, u16_from_le_bytes, u16_to_le_bytes,
    u32_from_le_bytes, u32_to_le_bytes, u64_from_le_bytes, u64_to_le_bytes,
};
use crate::tensor::decimal;
use crate::text::push_decimal;
use vstd::prelude::*;
use vstd::slice::{slice_subrange, slice_to_vec};

verus! {

/// The field a reader was looking at when the input ran out.
#[derive(Clone, Copy, Debug, PartialEq, Eq, Structural)]
pub enum Field {
    U16,
    U32,
    U64,
    KindDtype,
    Shape,
    Data,
    Flags,
    Kernel,
    Bytes,
    Dtype,
    OptFlag,
    Strength,
}

/// Why a `.rtw` container or payload could not be decoded.
#[derive(Clone, Copy, Debug, PartialEq, Eq, Structural)]
pub enum RtwError {
    /// The input is shorter than a header or does not start with `RTW1`.
    BadMagic,
    /// The header names a format version other than 1.
    UnsupportedVersion(u16),
    /// The input ended inside the given field.
    Short(Field),
    /// A string field is not valid UTF-8.
    BadUtf8,
    /// An f32 block whose byte length is not a multiple of four.
    BadF32Block,
}

/// The text a reader reports for running out of input inside a field.
pub open spec fn spec_short_message(f: Field) -> Seq<char> {
    match f {
        Field::U16 => "rtw: short u16"@,
        Field::U32 => "rtw: short u32"@,
        Field::U64 => "rtw: short u64"@,
        Field::KindDtype => "rtw: missing kind/dtype"@,
        Field::Shape => "rtw: short shape"@,
        Field::Data => "rtw: short data"@,
        Field::Flags => "rtw: missing flags"@,
        Field::Kernel => "rtw: short kernel"@,
        Field::Bytes => "rtw: short bytes"@,
        Field::Dtype => "rtw: short dtype"@,
        Field::OptFlag => "rtw: short opt flag"@,
        Field::Strength => "rtw: short strength"@,
    }
}

/// The text of each decoding error.
pub open spec fn spec_rtw_message(e: RtwError) -> Seq<char> {
    match e {
        RtwError::BadMagic => "rtw: bad or missing magic"@,
        RtwError::UnsupportedVersion(v) => "rtw: unsupported version "@ + decimal(v as nat),
        RtwError::Short(f) => spec_short_message(f),
        RtwError::BadUtf8 => "rtw: bad utf8"@,
        RtwError::BadF32Block => "rtw: bad f32 block"@,
    }
}

/// The version message, written out digit by digit.
fn unsupported_version_message(v: u16) -> (res: String)
    ensures
        res@ == "rtw: unsupported version "@ + decimal(v as nat),
{
    let mut m = String::from("rtw: unsupported version ");
    push_decimal(&mut m, v as usize);
    m
}

impl RtwError {
    /// The message the error is reported with.
    pub fn message(&self) -> (res: String)
        ensures
            res@ == spec_rtw_message(*self),
    {
        match self {
            RtwError::BadMagic => String::from("rtw: bad or missing magic"),
            RtwError::UnsupportedVersion(v) => unsupported_version_message(*v),
            RtwError::Short(f) => match f {
                Field::U16 => String::from("rtw: short u16"),
                Field::U32 => String::from("rtw: short u32"),
                Field::U64 => String::from("rtw: short u64"),
                Field::KindDtype => String::from("rtw: missing kind/dtype"),
                Field::Shape => String::from("rtw: short shape"),
                Field::Data => String::from("rtw: short data"),
                Field::Flags => String::from("rtw: missing flags"),
                Field::Kernel => String::from("rtw: short kernel"),
                Field::Bytes => String::from("rtw: short bytes"),
                Field::Dtype => String::from("rtw: short dtype"),
                Field::OptFlag => String::from("rtw: short opt flag"),
                Field::Strength => String::from("rtw: short strength"),
            },
            RtwError::BadUtf8 => String::from("rtw: bad utf8"),
            RtwError::BadF32Block => String::from("rtw: bad f32 block"),
        }
    }

    /// Whether the input ended early (as opposed to holding invalid data).
    pub fn is_unexpected_eof(&self) -> (res: bool)
        ensures
            res == (*self is Short),
    {
        match self {
            RtwError::Short(_) => true,
            _ => false,
        }
    }
}

/// The little-endian `u16` stored at byte offset `p`.
pub open spec fn u16_at(b: Seq<u8>, p: int) -> u16 {
    spec_u16_from_le_bytes(b.subrange(p, p + 2))
}

/// The little-endian `u32` stored at byte offset `p`.
pub open spec fn u32_at(b: Seq<u8>, p: int) -> u32 {
    spec_u32_from_le_bytes(b.subrange(p, p + 4))
}

/// The little-endian `u64` stored at byte offset `p`.
pub open spec fn u64_at(b: Seq<u8>, p: int) -> u64 {
    spec_u64_from_le_bytes(b.subrange(p, p + 8))
}

/// Each word in order, four little-endian bytes apiece.
pub open spec fn words_bytes(ws: Seq<u32>) -> Seq<u8>
    decreases ws.len(),
{
    if ws.len() == 0 {
        Seq::empty()
    } else {
        words_bytes(ws.drop_last()) + spec_u32_to_le_bytes(ws.last())
    }
}

/// The words that a run of `n` little-endian `u32`s starting at `p` holds.
pub open spec fn words_at(b: Seq<u8>, p: int, n: nat) -> Seq<u32> {
    Seq::new(n, |i: int| u32_at(b, p + 4 * i))
}

/// A block as `put_bytes` lays it out: its length as a `u32`, then its bytes.
pub open spec fn block_bytes(b: Seq<u8>) -> Seq<u8> {
    spec_u32_to_le_bytes(b.len() as u32) + b
}

pub proof fn lemma_le_roundtrips()
    ensures
        forall|x: u16| #[trigger]
            spec_u16_to_le_bytes(x).len() == 2 && spec_u16_from_le_bytes(spec_u16_to_le_bytes(x))
                == x,
        forall|x: u32| #[trigger]
            spec_u32_to_le_bytes(x).len() == 4 && spec_u32_from_le_bytes(spec_u32_to_le_bytes(x))
                == x,
        forall|x: u64| #[trigger]
            spec_u64_to_le_bytes(x).len() == 8 && spec_u64_from_le_bytes(spec_u64_to_le_bytes(x))
                == x,
{
    vstd::bytes::lemma_auto_spec_u16_to_from_le_bytes();
    vstd::bytes::lemma_auto_spec_u32_to_from_le_bytes();
    vstd::bytes::lemma_auto_spec_u64_to_from_le_bytes();
}

/// `words_bytes` is four bytes per word, and the word at index `i` sits at `4 * i`.
pub proof fn lemma_words_bytes(ws: Seq<u32>)
    ensures
        words_bytes(ws).len() == 4 * ws.len(),
        forall|i: int| 0 <= i < ws.len() ==> #[trigger] u32_at(words_bytes(ws), 4 * i) == ws[i],
    decreases ws.len(),
{
    lemma_le_roundtrips();
    if ws.len() > 0 {
        let init = ws.drop_last();
        lemma_words_bytes(init);
        let b = words_bytes(ws);
        let last = spec_u32_to_le_bytes(ws.last());
        assert(b == words_bytes(init) + last);
        assert forall|i: int| 0 <= i < ws.len() implies #[trigger] u32_at(b, 4 * i) == ws[i] by {
            if i < init.len() {
                assert(b.subrange(4 * i, 4 * i + 4) =~= words_bytes(init).subrange(
                    4 * i,
                    4 * i + 4,
                ));
                assert(u32_at(words_bytes(init), 4 * i) == init[i]);
            } else {
                assert(b.subrange(4 * i, 4 * i + 4) =~= last);
            }
        }
    }
}

/// Reading back the words of `words_bytes(ws)`, wherever it sits in a larger
/// input, gives `ws`.
pub proof fn lemma_words_at(pre: Seq<u8>, ws: Seq<u32>, post: Seq<u8>)
    ensures
        words_at(pre + words_bytes(ws) + post, pre.len() as int, ws.len()) == ws,
{
    lemma_words_bytes(ws);
    let b = pre + words_bytes(ws) + post;
    let p = pre.len() as int;
    assert forall|i: int| 0 <= i < ws.len() implies #[trigger] words_at(b, p, ws.len())[i]
        == ws[i] by {
        assert(b.subrange(p + 4 * i, p + 4 * i + 4) =~= words_bytes(ws).subrange(
            4 * i,
            4 * i + 4,
        ));
        assert(u32_at(words_bytes(ws), 4 * i) == ws[i]);
    }
    assert(words_at(b, p, ws.len()) =~= ws);
}

/// Append every byte of `s`.
pub fn push_all(w: &mut Vec<u8>, s: &[u8])
    ensures
        final(w)@ == old(w)@ + s@,
{
    let ghost start = w@;
    let mut i: usize = 0;
    while i < s.len()
        invariant
            0 <= i <= s@.len(),
            w@ == start + s@.subrange(0, i as int),
        decreases s@.len() - i,
    {
        w.push(s[i]);
        i = i + 1;
        assert(w@ =~= start + s@.subrange(0, i as int));
    }
    assert(s@.subrange(0, s@.len() as int) =~= s@);
}

pub fn put_u16(w: &mut Vec<u8>, v: u16)
    ensures
        final(w)@ == old(w)@ + spec_u16_to_le_bytes(v),
{
    let b = u16_to_le_bytes(v);
    push_all(w, b.as_slice());
}

pub fn put_u32(w: &mut Vec<u8>, v: u32)
    ensures
        final(w)@ == old(w)@ + spec_u32_to_le_bytes(v),
{
    let b = u32_to_le_bytes(v);
    push_all(w, b.as_slice());
}

pub fn put_u64(w: &mut Vec<u8>, v: u64)
    ensures
        final(w)@ == old(w)@ + spec_u64_to_le_bytes(v),
{
    let b = u64_to_le_bytes(v);
    push_all(w, b.as_slice());
}

/// Append a length-prefixed block: its length as a `u32`, then the bytes.
pub fn put_bytes(w: &mut Vec<u8>, b: &[u8])
    ensures
        final(w)@ == old(w)@ + block_bytes(b@),
{
    put_u32(w, b.len() as u32);
    push_all(w, b);
    assert(final(w)@ =~= old(w)@ + block_bytes(b@));
}

/// Read a little-endian `u16` at `*pos` and advance past it.
pub fn rd_u16(b: &[u8], pos: &mut usize) -> (res: Result<u16, RtwError>)
    requires
        *old(pos) <= b@.len(),
    ensures
        b@.len() - *old(pos) < 2 ==> res == Err::<u16, RtwError>(RtwError::Short(Field::U16))
            && *final(pos) == *old(pos),
        b@.len() - *old(pos) >= 2 ==> res == Ok::<u16, RtwError>(u16_at(b@, *old(pos) as int))
            && *final(pos) == *old(pos) + 2,
{
    if b.len() - *pos < 2 {
        return Err(RtwError::Short(Field::U16));
    }
    let v = u16_from_le_bytes(slice_subrange(b, *pos, *pos + 2));
    *pos = *pos + 2;
    Ok(v)
}

/// Read a little-endian `u32` at `*pos` and advance past it.
pub fn rd_u32(b: &[u8], pos: &mut usize) -> (res: Result<u32, RtwError>)
    requires
        *old(pos) <= b@.len(),
    ensures
        b@.len() - *old(pos) < 4 ==> res == Err::<u32, RtwError>(RtwError::Short(Field::U32))
            && *final(pos) == *old(pos),
        b@.len() - *old(pos) >= 4 ==> res == Ok::<u32, RtwError>(u32_at(b@, *old(pos) as int))
            && *final(pos) == *old(pos) + 4,
{
    if b.len() - *pos < 4 {
        return Err(RtwError::Short(Field::U32));
    }
    let v = u32_from_le_bytes(slice_subrange(b, *pos, *pos + 4));
    *pos = *pos + 4;
    Ok(v)
}

/// Read a little-endian `u64` at `*pos` and advance past it.
pub fn rd_u64(b: &[u8], pos: &mut usize) -> (res: Result<u64, RtwError>)
    requires
        *old(pos) <= b@.len(),
    ensures
        b@.len() - *old(pos) < 8 ==> res == Err::<u64, RtwError>(RtwError::Short(Field::U64))
            && *final(pos) == *old(pos),
        b@.len() - *old(pos) >= 8 ==> res == Ok::<u64, RtwError>(u64_at(b@, *old(pos) as int))
            && *final(pos) == *old(pos) + 8,
{
    if b.len() - *pos < 8 {
        return Err(RtwError::Short(Field::U64));
    }
    let v = u64_from_le_bytes(slice_subrange(b, *pos, *pos + 8));
    *pos = *pos + 8;
    Ok(v)
}

/// What `rd_bytes` yields at offset `p`: the block and the offset after it.
pub open spec fn block_at(b: Seq<u8>, p: int) -> Result<(Seq<u8>, int), RtwError> {
    if b.len() - p < 4 {
        Err(RtwError::Short(Field::U32))
    } else if b.len() - (p + 4) < u32_at(b, p) {
        Err(RtwError::Short(Field::Bytes))
    } else {
        Ok((b.subrange(p + 4, p + 4 + u32_at(b, p)), p + 4 + u32_at(b, p)))
    }
}

/// Read a length-prefixed block at `*pos` and advance past it.
pub fn rd_bytes(b: &[u8], pos: &mut usize) -> (res: Result<Vec<u8>, RtwError>)
    requires
        *old(pos) <= b@.len(),
    ensures
        *final(pos) <= b@.len(),
        match block_at(b@, *old(pos) as int) {
            Ok((v, q)) => res matches Ok(r) && r@ == v && *final(pos) == q,
            Err(e) => res == Err::<Vec<u8>, RtwError>(e),
        },
{
    let n = rd_u32(b, pos)? as usize;
    if b.len() - *pos < n {
        return Err(RtwError::Short(Field::Bytes));
    }
    let v = slice_to_vec(slice_subrange(b, *pos, *pos + n));
    *pos = *pos + n;
    Ok(v)
}

/// A conservative pre-allocation capacity for a list whose length was read
/// from untrusted bytes: `count` elements of at least `min_entry` bytes each
/// cannot need more room than `remaining` bytes hold, so a hostile count is
/// clamped to `remaining / min_entry`. With `min_entry == 0` no clamp applies.
pub fn cap_for(count: usize, min_entry: usize, remaining: usize) -> (res: usize)
    ensures
        count * min_entry <= remaining ==> res == count,
        count * min_entry > remaining ==> res == remaining / min_entry,
        res <= count,
{
    if min_entry == 0 {
        return count;
    }
    proof {
        if count * min_entry > remaining {
            vstd::arithmetic::div_mod::lemma_div_is_ordered(
                remaining as int,
                count * min_entry,
                min_entry as int,
            );
            vstd::arithmetic::div_mod::lemma_div_by_multiple(count as int, min_entry as int);
        }
    }
    match count.checked_mul(min_entry) {
        None => remaining / min_entry,
        Some(needed) => {
            if needed > remaining {
                remaining / min_entry
            } else {
                count
            }
        },
    }
}

} // verus!
