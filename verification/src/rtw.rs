//! RTorch Workfile (`.rtw`): a self-contained little-endian container for
//! computation results, embedded kernels, model weights and memory state.
//!
//! Layout:
//!
//! ```text
//! [0..4]    magic     "RTW1"
//! [4..6]    u16       version (= 1)
//! [6]       u8        kind   (0 = result, 1 = kernel, 2 = model, 3 = memory)
//! [7]       u8        dtype  (0 = fp32, 1 = fp16, 2 = fp8, 3 = fp4, 4 = int32, 5 = bytes)
//! [8..12]   u32       rank
//! [12..]    u32[rank] shape
//! [..]      u64       data_len, then data_len bytes of payload
//! [..]      u8        flags (0x01 = has kernel)
//! [..]      u64 klen + klen bytes of kernel source   (only with the flag)
//! [..]      "RTEND"
//! ```
use crate::wire::{
    push_all, put_u16, put_u32, put_u64, rd_u16, rd_u32, rd_u64, u16_at, u32_at, u64_at,
    words_at, words_bytes, cap_for, lemma_le_roundtrips, lemma_words_at, lemma_words_bytes,
    Field, RtwError,
};
use vstd::bytes::{spec_u16_to_le_bytes, spec_u32_to_le_bytes, spec_u64_to_le_bytes};
pub use crate::payload::{
    decode_memory, decode_model, encode_memory, encode_model, memory_rtw, model_rtw, Memory,
    MemoryFragment, Model, NamedTensor, OptState,
};
use vstd::prelude::*;
use vstd::slice::{slice_subrange, slice_to_vec};

verus! {

pub const DTYPE_FP32: u8 = 0;
pub const DTYPE_FP16: u8 = 1;
/// E4M3
pub const DTYPE_FP8: u8 = 2;
/// E2M1
pub const DTYPE_FP4: u8 = 3;
pub const DTYPE_INT32: u8 = 4;
pub const DTYPE_BYTES: u8 = 5;

pub const KIND_RESULT: u8 = 0;
pub const KIND_KERNEL: u8 = 1;
/// Frozen weights: named parameters plus optional optimizer state.
pub const KIND_MODEL: u8 = 2;
/// Memory state: a list of fragments that grows over time.
pub const KIND_MEMORY: u8 = 3;

pub const FLAG_HAS_KERNEL: u8 = 0x01;

/// Bytes per element of a dtype; unknown tags count as one byte.
pub open spec fn spec_dtype_width(d: u8) -> usize {
    if d == DTYPE_FP32 || d == DTYPE_INT32 {
        4
    } else if d == DTYPE_FP16 {
        2
    } else {
        1
    }
}

pub fn dtype_width(d: u8) -> (res: usize)
    ensures
        res == spec_dtype_width(d),
        (d == DTYPE_FP32 || d == DTYPE_INT32) ==> res == 4,
        d == DTYPE_FP16 ==> res == 2,
        (d == DTYPE_FP8 || d == DTYPE_FP4 || d == DTYPE_BYTES) ==> res == 1,
        1 <= res <= 4,
{
    if d == DTYPE_FP32 || d == DTYPE_INT32 {
        4
    } else if d == DTYPE_FP16 {
        2
    } else if d == DTYPE_FP8 {
        1
    } else if d == DTYPE_FP4 {
        // packed one per byte in v1
        1
    } else {
        1
    }
}

pub open spec fn spec_dtype_name(d: u8) -> Seq<char> {
    if d == DTYPE_FP32 {
        "fp32"@
    } else if d == DTYPE_FP16 {
        "fp16"@
    } else if d == DTYPE_FP8 {
        "fp8(E4M3)"@
    } else if d == DTYPE_FP4 {
        "fp4(E2M1)"@
    } else if d == DTYPE_INT32 {
        "int32"@
    } else {
        "bytes"@
    }
}

pub fn dtype_name(d: u8) -> (res: &'static str)
    ensures
        res@ == spec_dtype_name(d),
{
    if d == DTYPE_FP32 {
        "fp32"
    } else if d == DTYPE_FP16 {
        "fp16"
    } else if d == DTYPE_FP8 {
        "fp8(E4M3)"
    } else if d == DTYPE_FP4 {
        "fp4(E2M1)"
    } else if d == DTYPE_INT32 {
        "int32"
    } else {
        "bytes"
    }
}

/// An `.rtw` container.
#[derive(Debug, Clone)]
pub struct Rtw {
    pub kind: u8,
    pub dtype: u8,
    pub shape: Vec<u32>,
    pub data: Vec<u8>,
    pub kernel: Option<Vec<u8>>,
}

/// The mathematical content of an `Rtw`.
pub struct RtwView {
    pub kind: u8,
    pub dtype: u8,
    pub shape: Seq<u32>,
    pub data: Seq<u8>,
    pub kernel: Option<Seq<u8>>,
}

pub open spec fn opt_bytes_view(k: Option<Vec<u8>>) -> Option<Seq<u8>> {
    match k {
        Some(v) => Some(v@),
        None => None,
    }
}

impl View for Rtw {
    type V = RtwView;

    open spec fn view(&self) -> RtwView {
        RtwView {
            kind: self.kind,
            dtype: self.dtype,
            shape: self.shape@,
            data: self.data@,
            kernel: opt_bytes_view(self.kernel),
        }
    }
}

impl Rtw {
    /// Number of elements the payload holds at the container's dtype width.
    pub fn count(&self) -> (res: u64)
        ensures
            res as int == self.data@.len() as int / spec_dtype_width(self.dtype) as int,
            self.dtype == DTYPE_BYTES ==> res == self.data@.len(),
    {
        proof {
            lemma_count_by_dtype(self.dtype, self.data@.len() as int);
        }
        self.data.len() as u64 / dtype_width(self.dtype) as u64
    }
}

/// How many elements a payload of `n` bytes holds, by dtype: a four-byte
/// element for fp32 and int32, two bytes for fp16, and one byte each for
/// fp8, fp4 and raw bytes, so that a bytes container counts one element per
/// payload byte; whole elements only, never more bytes than the payload has.
pub proof fn lemma_count_by_dtype(d: u8, n: int)
    requires
        0 <= n,
    ensures
        (d == DTYPE_FP32 || d == DTYPE_INT32) ==> n / spec_dtype_width(d) as int == n / 4,
        d == DTYPE_FP16 ==> n / spec_dtype_width(d) as int == n / 2,
        (d == DTYPE_FP8 || d == DTYPE_FP4 || d == DTYPE_BYTES) ==> n / spec_dtype_width(d) as int
            == n,
        (n / spec_dtype_width(d) as int) * spec_dtype_width(d) <= n,
        n < (n / spec_dtype_width(d) as int + 1) * spec_dtype_width(d),
{
    let w = spec_dtype_width(d) as int;
    assert(1 <= w <= 4);
    assert((n / w) * w <= n && n < (n / w + 1) * w) by (nonlinear_arith)
        requires
            1 <= w,
            0 <= n,
    ;
}

pub open spec fn rtw_magic() -> Seq<u8> {
    seq![0x52u8, 0x54u8, 0x57u8, 0x31u8]
}

pub open spec fn end_magic() -> Seq<u8> {
    seq![0x52u8, 0x54u8, 0x45u8, 0x4eu8, 0x44u8]
}

/// The flags byte and, when present, the length-prefixed kernel.
pub open spec fn kernel_bytes(k: Option<Seq<u8>>) -> Seq<u8> {
    match k {
        Some(src) => seq![FLAG_HAS_KERNEL] + spec_u64_to_le_bytes(src.len() as u64) + src,
        None => seq![0u8],
    }
}

/// The bytes `encode` produces for a container.
pub open spec fn encode_spec(r: RtwView) -> Seq<u8> {
    rtw_magic() + spec_u16_to_le_bytes(1) + seq![r.kind, r.dtype] + spec_u32_to_le_bytes(
        r.shape.len() as u32,
    ) + words_bytes(r.shape) + spec_u64_to_le_bytes(r.data.len() as u64) + r.data + kernel_bytes(
        r.kernel,
    ) + end_magic()
}

/// What `decode` makes of a byte string. Bytes after the kernel (normally
/// the `RTEND` marker) are not inspected.
pub open spec fn decode_spec(b: Seq<u8>) -> Result<RtwView, RtwError> {
    if b.len() < 12 || b.subrange(0, 4) != rtw_magic() {
        Err(RtwError::BadMagic)
    } else if u16_at(b, 4) != 1 {
        Err(RtwError::UnsupportedVersion(u16_at(b, 4)))
    } else {
        let rank = u32_at(b, 8) as int;
        if b.len() - 12 < rank * 4 {
            Err(RtwError::Short(Field::Shape))
        } else {
            let p = 12 + rank * 4;
            if b.len() - p < 8 {
                Err(RtwError::Short(Field::U64))
            } else {
                let dlen = (u64_at(b, p) as usize) as int;
                let p = p + 8;
                if b.len() - p < dlen {
                    Err(RtwError::Short(Field::Data))
                } else {
                    let data = b.subrange(p, p + dlen);
                    let p = p + dlen;
                    let head = RtwView {
                        kind: b[6],
                        dtype: b[7],
                        shape: words_at(b, 12, rank as nat),
                        data,
                        kernel: None,
                    };
                    if b.len() - p < 1 {
                        Err(RtwError::Short(Field::Flags))
                    } else if b[p] & FLAG_HAS_KERNEL == 0 {
                        Ok(head)
                    } else {
                        let p = p + 1;
                        if b.len() - p < 8 {
                            Err(RtwError::Short(Field::U64))
                        } else {
                            let klen = (u64_at(b, p) as usize) as int;
                            let p = p + 8;
                            if b.len() - p < klen {
                                Err(RtwError::Short(Field::Kernel))
                            } else {
                                Ok(RtwView { kernel: Some(b.subrange(p, p + klen)), ..head })
                            }
                        }
                    }
                }
            }
        }
    }
}

pub open spec fn decode_result(r: Result<Rtw, RtwError>) -> Result<RtwView, RtwError> {
    match r {
        Ok(x) => Ok(x@),
        Err(e) => Err(e),
    }
}

/// Serialize a container to bytes (see the module documentation for the layout).
pub fn encode(rtw: &Rtw) -> (res: Vec<u8>)
    ensures
        res@ == encode_spec(rtw@),
{
    let mut w: Vec<u8> = Vec::new();
    w.push(0x52);
    w.push(0x54);
    w.push(0x57);
    w.push(0x31);
    put_u16(&mut w, 1);
    w.push(rtw.kind);
    w.push(rtw.dtype);
    put_u32(&mut w, rtw.shape.len() as u32);
    let ghost head = w@;
    let mut i: usize = 0;
    while i < rtw.shape.len()
        invariant
            0 <= i <= rtw.shape@.len(),
            w@ == head + words_bytes(rtw.shape@.subrange(0, i as int)),
        decreases rtw.shape@.len() - i,
    {
        put_u32(&mut w, rtw.shape[i]);
        proof {
            let next = rtw.shape@.subrange(0, i + 1);
            assert(next.drop_last() =~= rtw.shape@.subrange(0, i as int));
        }
        i = i + 1;
    }
    assert(rtw.shape@.subrange(0, rtw.shape@.len() as int) =~= rtw.shape@);
    put_u64(&mut w, rtw.data.len() as u64);
    push_all(&mut w, rtw.data.as_slice());
    let ghost body = w@;
    match &rtw.kernel {
        Some(k) => {
            w.push(FLAG_HAS_KERNEL);
            put_u64(&mut w, k.len() as u64);
            push_all(&mut w, k.as_slice());
        },
        None => {
            w.push(0);
        },
    }
    assert(w@ =~= body + kernel_bytes(rtw@.kernel));
    w.push(0x52);
    w.push(0x54);
    w.push(0x45);
    w.push(0x4e);
    w.push(0x44);
    assert(w@ =~= encode_spec(rtw@));
    w
}

/// Parse a container from bytes, checking the magic and the version.
pub fn decode(bytes: &[u8]) -> (res: Result<Rtw, RtwError>)
    ensures
        decode_result(res) == decode_spec(bytes@),
{
    if bytes.len() < 12 || !(bytes[0] == 0x52 && bytes[1] == 0x54 && bytes[2] == 0x57 && bytes[3]
        == 0x31) {
        proof {
            if bytes@.len() >= 12 {
                assert(bytes@.subrange(0, 4) != rtw_magic()) by {
                    if bytes@.subrange(0, 4) == rtw_magic() {
                        assert(bytes@[0] == bytes@.subrange(0, 4)[0]);
                        assert(bytes@[1] == bytes@.subrange(0, 4)[1]);
                        assert(bytes@[2] == bytes@.subrange(0, 4)[2]);
                        assert(bytes@[3] == bytes@.subrange(0, 4)[3]);
                    }
                }
            }
        }
        return Err(RtwError::BadMagic);
    }
    assert(bytes@.subrange(0, 4) =~= rtw_magic());
    let mut pos: usize = 4;
    let version = rd_u16(bytes, &mut pos)?;
    if version != 1 {
        return Err(RtwError::UnsupportedVersion(version));
    }
    if bytes.len() - pos < 2 {
        return Err(RtwError::Short(Field::KindDtype));
    }
    let kind = bytes[pos];
    let dtype = bytes[pos + 1];
    pos = pos + 2;
    let rank32 = rd_u32(bytes, &mut pos)?;
    let rank = rank32 as usize;
    if ((bytes.len() - pos) as u64) < (rank32 as u64) * 4 {
        return Err(RtwError::Short(Field::Shape));
    }
    let mut shape: Vec<u32> = Vec::with_capacity(cap_for(rank, 4, bytes.len() - pos));
    let mut i: usize = 0;
    while i < rank
        invariant
            0 <= i <= rank,
            rank == u32_at(bytes@, 8),
            pos == 12 + 4 * i,
            bytes@.len() - 12 >= 4 * rank,
            shape@ == words_at(bytes@, 12, rank as nat).subrange(0, i as int),
        decreases rank - i,
    {
        let s = rd_u32(bytes, &mut pos)?;
        shape.push(s);
        i = i + 1;
        assert(shape@ =~= words_at(bytes@, 12, rank as nat).subrange(0, i as int));
    }
    assert(shape@ =~= words_at(bytes@, 12, rank as nat));
    let data_len = rd_u64(bytes, &mut pos)? as usize;
    if bytes.len() - pos < data_len {
        return Err(RtwError::Short(Field::Data));
    }
    let data = slice_to_vec(slice_subrange(bytes, pos, pos + data_len));
    pos = pos + data_len;
    if bytes.len() - pos < 1 {
        return Err(RtwError::Short(Field::Flags));
    }
    let flags = bytes[pos];
    pos = pos + 1;
    let mut kernel: Option<Vec<u8>> = None;
    if flags & FLAG_HAS_KERNEL != 0 {
        let klen = rd_u64(bytes, &mut pos)? as usize;
        if bytes.len() - pos < klen {
            return Err(RtwError::Short(Field::Kernel));
        }
        kernel = Some(slice_to_vec(slice_subrange(bytes, pos, pos + klen)));
    }
    // Whatever follows (normally "RTEND") is tolerated as is.
    Ok(Rtw { kind, dtype, shape, data, kernel })
}

/// Decoding what `encode` wrote gives back the same container, as long as its
/// rank fits the `u32` rank field.
pub proof fn lemma_decode_encode(r: Rtw)
    requires
        r.shape@.len() <= u32::MAX,
    ensures
        decode_spec(encode_spec(r@)) == Ok::<RtwView, RtwError>(r@),
{
    lemma_le_roundtrips();
    assert(r.data@.len() == r.data.len());
    match r.kernel {
        Some(k) => {
            assert(k@.len() == k.len());
        },
        None => {},
    }
    let v = r@;
    let b = encode_spec(v);
    let rank = v.shape.len() as int;
    let h0 = rtw_magic();
    let h1 = h0 + spec_u16_to_le_bytes(1);
    let h2 = h1 + seq![v.kind, v.dtype];
    let h3 = h2 + spec_u32_to_le_bytes(v.shape.len() as u32);
    let h4 = h3 + words_bytes(v.shape);
    let h5 = h4 + spec_u64_to_le_bytes(v.data.len() as u64);
    let h6 = h5 + v.data;
    let h7 = h6 + kernel_bytes(v.kernel);
    lemma_words_bytes(v.shape);
    assert(h3.len() == 12);
    assert(b == h7 + end_magic());
    assert(b.subrange(0, 4) =~= rtw_magic());
    assert(b.subrange(4, 6) =~= spec_u16_to_le_bytes(1));
    assert(b[6] == v.kind && b[7] == v.dtype) by {
        assert(b[6] == h2[6]);
        assert(b[7] == h2[7]);
    }
    assert(b.subrange(8, 12) =~= spec_u32_to_le_bytes(v.shape.len() as u32));
    assert(u32_at(b, 8) as int == rank);
    lemma_words_at(h3, v.shape, b.subrange(h4.len() as int, b.len() as int));
    assert(h3 + words_bytes(v.shape) + b.subrange(h4.len() as int, b.len() as int) =~= b);
    let p = 12 + rank * 4;
    assert(p == h4.len());
    assert(b.subrange(p, p + 8) =~= spec_u64_to_le_bytes(v.data.len() as u64));
    assert(u64_at(b, p) == v.data.len() as u64);
    let p = p + 8;
    assert(b.subrange(p, p + v.data.len()) =~= v.data);
    let p = p + v.data.len();
    assert(p == h6.len());
    match v.kernel {
        None => {
            assert(b[p] == 0u8) by {
                assert(b[p] == h7[p]);
            }
            assert(0u8 & FLAG_HAS_KERNEL == 0) by (bit_vector);
            assert(decode_spec(b) =~= Ok::<RtwView, RtwError>(v));
        },
        Some(k) => {
            assert(b[p] == FLAG_HAS_KERNEL) by {
                assert(b[p] == h7[p]);
            }
            assert(FLAG_HAS_KERNEL & FLAG_HAS_KERNEL != 0) by (bit_vector);
            let q = p + 1;
            assert(b.subrange(q, q + 8) =~= spec_u64_to_le_bytes(k.len() as u64));
            let q = q + 8;
            assert(b.subrange(q, q + k.len()) =~= k);
            assert(decode_spec(b) =~= Ok::<RtwView, RtwError>(v));
        },
    }
}

/// What the container's bytes up to `k` decode to, for a cut inside the
/// container (`k` before the `RTEND` trailer) or exactly at the trailer.
proof fn lemma_container_prefix(r: Rtw, k: int)
    requires
        r.shape@.len() <= u32::MAX,
        0 <= k <= encode_spec(r@).len() - 5,
    ensures
        k < encode_spec(r@).len() - 5 ==> decode_spec(encode_spec(r@).subrange(0, k)) is Err,
        k == encode_spec(r@).len() - 5 ==> decode_spec(encode_spec(r@).subrange(0, k)) == Ok::<
            RtwView,
            RtwError,
        >(r@),
{
    lemma_le_roundtrips();
    assert(r.data@.len() == r.data.len());
    match r.kernel {
        Some(kk) => {
            assert(kk@.len() == kk.len());
        },
        None => {},
    }
    let v = r@;
    let b = encode_spec(v);
    let c = b.subrange(0, k);
    let rank = v.shape.len() as int;
    let h0 = rtw_magic();
    let h1 = h0 + spec_u16_to_le_bytes(1);
    let h2 = h1 + seq![v.kind, v.dtype];
    let h3 = h2 + spec_u32_to_le_bytes(v.shape.len() as u32);
    let h4 = h3 + words_bytes(v.shape);
    let h5 = h4 + spec_u64_to_le_bytes(v.data.len() as u64);
    let h6 = h5 + v.data;
    let h7 = h6 + kernel_bytes(v.kernel);
    lemma_words_bytes(v.shape);
    assert(h3.len() == 12);
    assert(b == h7 + end_magic());
    assert(b.len() - 5 == h7.len());
    assert(c.len() == k);
    if k < 12 {
        return;
    }
    assert(b.subrange(0, 4) =~= rtw_magic());
    assert(c.subrange(0, 4) =~= b.subrange(0, 4));
    assert(b.subrange(4, 6) =~= spec_u16_to_le_bytes(1));
    assert(c.subrange(4, 6) =~= b.subrange(4, 6));
    assert(u16_at(c, 4) == 1);
    assert(b[6] == v.kind && b[7] == v.dtype) by {
        assert(b[6] == h2[6]);
        assert(b[7] == h2[7]);
    }
    assert(c[6] == b[6] && c[7] == b[7]);
    assert(b.subrange(8, 12) =~= spec_u32_to_le_bytes(v.shape.len() as u32));
    assert(c.subrange(8, 12) =~= b.subrange(8, 12));
    assert(u32_at(c, 8) as int == rank);
    let p = 12 + rank * 4;
    assert(p == h4.len());
    if k - 12 < rank * 4 {
        return;
    }
    if k - p < 8 {
        return;
    }
    assert(b.subrange(p, p + 8) =~= spec_u64_to_le_bytes(v.data.len() as u64));
    assert(c.subrange(p, p + 8) =~= b.subrange(p, p + 8));
    assert(u64_at(c, p) == v.data.len() as u64);
    let dlen = v.data.len() as int;
    assert((u64_at(c, p) as usize) as int == dlen);
    let d = p + 8;
    if k - d < dlen {
        return;
    }
    assert(b.subrange(d, d + dlen) =~= v.data);
    assert(c.subrange(d, d + dlen) =~= b.subrange(d, d + dlen));
    let f = d + dlen;
    assert(f == h6.len());
    if k - f < 1 {
        return;
    }
    assert(c[f] == b[f]);
    let shape_c = words_at(c, 12, rank as nat);
    lemma_words_at(h3, v.shape, b.subrange(h4.len() as int, b.len() as int));
    assert(h3 + words_bytes(v.shape) + b.subrange(h4.len() as int, b.len() as int) =~= b);
    assert(shape_c =~= v.shape) by {
        assert forall|i: int| 0 <= i < rank implies #[trigger] shape_c[i] == v.shape[i] by {
            assert(c.subrange(12 + 4 * i, 12 + 4 * i + 4) =~= b.subrange(12 + 4 * i, 12 + 4 * i + 4));
            assert(words_at(b, 12, rank as nat)[i] == v.shape[i]);
        }
    }
    match v.kernel {
        None => {
            assert(b[f] == 0u8) by {
                assert(b[f] == h7[f]);
            }
            assert(0u8 & FLAG_HAS_KERNEL == 0) by (bit_vector);
            assert(decode_spec(c) =~= Ok::<RtwView, RtwError>(v));
        },
        Some(kern) => {
            assert(b[f] == FLAG_HAS_KERNEL) by {
                assert(b[f] == h7[f]);
            }
            assert(FLAG_HAS_KERNEL & FLAG_HAS_KERNEL != 0) by (bit_vector);
            let q = f + 1;
            if k - q < 8 {
                return;
            }
            assert(b.subrange(q, q + 8) =~= spec_u64_to_le_bytes(kern.len() as u64));
            assert(c.subrange(q, q + 8) =~= b.subrange(q, q + 8));
            assert(u64_at(c, q) == kern.len() as u64);
            let q = q + 8;
            if k - q < kern.len() {
                return;
            }
            assert(b.subrange(q, q + kern.len()) =~= kern);
            assert(c.subrange(q, q + kern.len()) =~= b.subrange(q, q + kern.len()));
            assert(decode_spec(c) =~= Ok::<RtwView, RtwError>(v));
        },
    }
}

/// A container cut short anywhere before its `RTEND` trailer fails to
/// decode: never a container with a shorter shape, payload or kernel.
pub proof fn lemma_truncated_container_rejected(r: Rtw, k: int)
    requires
        r.shape@.len() <= u32::MAX,
        0 <= k < encode_spec(r@).len() - 5,
    ensures
        decode_spec(encode_spec(r@).subrange(0, k)) is Err,
{
    lemma_container_prefix(r, k);
}

/// The `RTEND` trailer is optional: the container without it decodes to the
/// same container.
pub proof fn lemma_trailer_optional(r: Rtw)
    requires
        r.shape@.len() <= u32::MAX,
    ensures
        encode_spec(r@).len() >= 5,
        decode_spec(encode_spec(r@).subrange(0, encode_spec(r@).len() - 5)) == Ok::<
            RtwView,
            RtwError,
        >(r@),
{
    assert(encode_spec(r@).len() >= 5);
    lemma_container_prefix(r, encode_spec(r@).len() - 5);
}

} // verus!
