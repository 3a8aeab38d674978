//! Structured payloads carried in `.rtw` containers of kind model and memory.
//!
//! A model payload is its name, a version, the named parameter tensors
//! (shape, dtype tag, f32 data) and optional Adam state; a memory payload is a
//! list of fragments. f32 values travel as their IEEE-754 bit patterns (`u32`),
//! which is exactly what their little-endian bytes encode.
use crate::rtw::{DTYPE_BYTES, KIND_MEMORY, KIND_MODEL, Rtw};
use crate::text::string_from_utf8;
use crate::wire::{
    block_at, block_bytes, cap_for, lemma_le_roundtrips, lemma_words_at, lemma_words_bytes,
    push_all, put_bytes, put_u32, put_u64, rd_bytes, rd_u32, rd_u64, u32_at, u64_at, words_at,
    words_bytes, Field, RtwError,
};
use vstd::bytes::{spec_u32_to_le_bytes, spec_u64_to_le_bytes, u32_from_le_bytes};
use vstd::prelude::*;
use vstd::slice::slice_subrange;
use vstd::utf8::{decode_utf8, encode_utf8, valid_utf8};

verus! {

broadcast use vstd::utf8::group_utf8_lib;

/// A named parameter tensor. `data` holds the f32 values as bit patterns.
#[derive(Clone, Debug)]
pub struct NamedTensor {
    pub name: String,
    pub shape: Vec<u32>,
    pub dtype: u8,
    pub data: Vec<u32>,
}

/// Adam moments (f32 bit patterns) and step count.
#[derive(Clone, Debug, Default)]
pub struct OptState {
    pub m: Vec<Vec<u32>>,
    pub v: Vec<Vec<u32>>,
    pub t: u64,
}

#[derive(Clone, Debug, Default)]
pub struct Model {
    pub name: String,
    pub version: u32,
    pub params: Vec<NamedTensor>,
    pub opt: Option<OptState>,
}

/// One memory fragment: an id, a state vector and a strength (f32 bits).
#[derive(Clone, Debug)]
pub struct MemoryFragment {
    pub id: u64,
    pub state: Vec<u32>,
    pub strength: u32,
}

#[derive(Clone, Debug, Default)]
pub struct Memory {
    pub fragments: Vec<MemoryFragment>,
}

pub struct TensorView {
    pub name: Seq<char>,
    pub shape: Seq<u32>,
    pub dtype: u8,
    pub data: Seq<u32>,
}

pub struct OptView {
    pub m: Seq<Seq<u32>>,
    pub v: Seq<Seq<u32>>,
    pub t: u64,
}

pub struct ModelView {
    pub name: Seq<char>,
    pub version: u32,
    pub params: Seq<TensorView>,
    pub opt: Option<OptView>,
}

pub struct FragmentView {
    pub id: u64,
    pub state: Seq<u32>,
    pub strength: u32,
}

pub struct MemoryView {
    pub fragments: Seq<FragmentView>,
}

impl View for NamedTensor {
    type V = TensorView;

    open spec fn view(&self) -> TensorView {
        TensorView { name: self.name@, shape: self.shape@, dtype: self.dtype, data: self.data@ }
    }
}

pub open spec fn lists_view(ls: Seq<Vec<u32>>) -> Seq<Seq<u32>> {
    ls.map_values(|l: Vec<u32>| l@)
}

impl View for OptState {
    type V = OptView;

    open spec fn view(&self) -> OptView {
        OptView { m: lists_view(self.m@), v: lists_view(self.v@), t: self.t }
    }
}

pub open spec fn opt_view(o: Option<OptState>) -> Option<OptView> {
    match o {
        Some(s) => Some(s@),
        None => None,
    }
}

impl View for Model {
    type V = ModelView;

    open spec fn view(&self) -> ModelView {
        ModelView {
            name: self.name@,
            version: self.version,
            params: self.params@.map_values(|p: NamedTensor| p@),
            opt: opt_view(self.opt),
        }
    }
}

impl View for MemoryFragment {
    type V = FragmentView;

    open spec fn view(&self) -> FragmentView {
        FragmentView { id: self.id, state: self.state@, strength: self.strength }
    }
}

impl View for Memory {
    type V = MemoryView;

    open spec fn view(&self) -> MemoryView {
        MemoryView { fragments: self.fragments@.map_values(|f: MemoryFragment| f@) }
    }
}

// ---------------------------------------------------------------------------
// The byte layout.
// ---------------------------------------------------------------------------
/// A string: its UTF-8 bytes as a block.
pub open spec fn str_bytes(s: Seq<char>) -> Seq<u8> {
    block_bytes(encode_utf8(s))
}

/// An f32 list: the little-endian words as a block.
pub open spec fn f32s_bytes(ws: Seq<u32>) -> Seq<u8> {
    block_bytes(words_bytes(ws))
}

pub open spec fn tensor_bytes(p: TensorView) -> Seq<u8> {
    str_bytes(p.name) + spec_u32_to_le_bytes(p.shape.len() as u32) + words_bytes(p.shape) + seq![
        p.dtype,
    ] + f32s_bytes(p.data)
}

pub open spec fn lists_bytes(ls: Seq<Seq<u32>>) -> Seq<u8> {
    spec_u32_to_le_bytes(ls.len() as u32) + ls.map_values(|l: Seq<u32>| f32s_bytes(l)).flatten()
}

pub open spec fn opt_bytes(o: Option<OptView>) -> Seq<u8> {
    match o {
        Some(s) => seq![1u8] + spec_u64_to_le_bytes(s.t) + lists_bytes(s.m) + lists_bytes(s.v),
        None => seq![0u8],
    }
}

/// The bytes `encode_model` produces.
pub open spec fn encode_model_spec(m: ModelView) -> Seq<u8> {
    str_bytes(m.name) + spec_u32_to_le_bytes(m.version) + spec_u32_to_le_bytes(
        m.params.len() as u32,
    ) + m.params.map_values(|p: TensorView| tensor_bytes(p)).flatten() + opt_bytes(m.opt)
}

pub open spec fn fragment_bytes(f: FragmentView) -> Seq<u8> {
    spec_u64_to_le_bytes(f.id) + f32s_bytes(f.state) + spec_u32_to_le_bytes(f.strength)
}

/// The bytes `encode_memory` produces.
pub open spec fn encode_memory_spec(m: MemoryView) -> Seq<u8> {
    spec_u32_to_le_bytes(m.fragments.len() as u32) + m.fragments.map_values(
        |f: FragmentView| fragment_bytes(f),
    ).flatten()
}

// ---------------------------------------------------------------------------
// What a reader at offset `p` yields: a value and the offset after it.
// ---------------------------------------------------------------------------
pub open spec fn u32_read(b: Seq<u8>, p: int) -> Result<(u32, int), RtwError> {
    if b.len() - p < 4 {
        Err(RtwError::Short(Field::U32))
    } else {
        Ok((u32_at(b, p), p + 4))
    }
}

pub open spec fn u64_read(b: Seq<u8>, p: int) -> Result<(u64, int), RtwError> {
    if b.len() - p < 8 {
        Err(RtwError::Short(Field::U64))
    } else {
        Ok((u64_at(b, p), p + 8))
    }
}

pub open spec fn str_at(b: Seq<u8>, p: int) -> Result<(Seq<char>, int), RtwError> {
    match block_at(b, p) {
        Err(e) => Err(e),
        Ok((bs, q)) => if valid_utf8(bs) {
            Ok((decode_utf8(bs), q))
        } else {
            Err(RtwError::BadUtf8)
        },
    }
}

pub open spec fn f32s_at(b: Seq<u8>, p: int) -> Result<(Seq<u32>, int), RtwError> {
    match block_at(b, p) {
        Err(e) => Err(e),
        Ok((bs, q)) => if bs.len() % 4 != 0 {
            Err(RtwError::BadF32Block)
        } else {
            Ok((words_at(bs, 0, bs.len() / 4), q))
        },
    }
}

pub open spec fn tensor_at(b: Seq<u8>, p: int) -> Result<(TensorView, int), RtwError> {
    match str_at(b, p) {
        Err(e) => Err(e),
        Ok((name, p)) => match u32_read(b, p) {
            Err(e) => Err(e),
            Ok((rank, p)) => if b.len() - p < rank * 4 {
                Err(RtwError::Short(Field::Shape))
            } else {
                let shape = words_at(b, p, rank as nat);
                let p = p + rank * 4;
                if b.len() - p < 1 {
                    Err(RtwError::Short(Field::Dtype))
                } else {
                    let dtype = b[p];
                    match f32s_at(b, p + 1) {
                        Err(e) => Err(e),
                        Ok((data, q)) => Ok((TensorView { name, shape, dtype, data }, q)),
                    }
                }
            },
        },
    }
}

/// `n` parameter tensors read one after another from offset `p`.
pub open spec fn tensors_at(b: Seq<u8>, p: int, n: nat) -> Result<(Seq<TensorView>, int), RtwError>
    decreases n,
{
    if n == 0 {
        Ok((Seq::empty(), p))
    } else {
        match tensor_at(b, p) {
            Err(e) => Err(e),
            Ok((t, q)) => match tensors_at(b, q, (n - 1) as nat) {
                Err(e) => Err(e),
                Ok((ts, r)) => Ok((seq![t] + ts, r)),
            },
        }
    }
}

/// `n` f32 lists read one after another from offset `p`.
pub open spec fn blocks_at(b: Seq<u8>, p: int, n: nat) -> Result<(Seq<Seq<u32>>, int), RtwError>
    decreases n,
{
    if n == 0 {
        Ok((Seq::empty(), p))
    } else {
        match f32s_at(b, p) {
            Err(e) => Err(e),
            Ok((l, q)) => match blocks_at(b, q, (n - 1) as nat) {
                Err(e) => Err(e),
                Ok((ls, r)) => Ok((seq![l] + ls, r)),
            },
        }
    }
}

pub open spec fn lists_at(b: Seq<u8>, p: int) -> Result<(Seq<Seq<u32>>, int), RtwError> {
    match u32_read(b, p) {
        Err(e) => Err(e),
        Ok((n, q)) => blocks_at(b, q, n as nat),
    }
}

pub open spec fn opt_at(b: Seq<u8>, p: int) -> Result<Option<OptView>, RtwError> {
    if b.len() - p < 1 {
        Err(RtwError::Short(Field::OptFlag))
    } else if b[p] == 0 {
        Ok(None)
    } else {
        match u64_read(b, p + 1) {
            Err(e) => Err(e),
            Ok((t, q)) => match lists_at(b, q) {
                Err(e) => Err(e),
                Ok((m, q)) => match lists_at(b, q) {
                    Err(e) => Err(e),
                    Ok((v, _)) => Ok(Some(OptView { m, v, t })),
                },
            },
        }
    }
}

/// What `decode_model` makes of a payload. Bytes after the optimizer state
/// are not inspected.
pub open spec fn decode_model_spec(b: Seq<u8>) -> Result<ModelView, RtwError> {
    match str_at(b, 0) {
        Err(e) => Err(e),
        Ok((name, p)) => match u32_read(b, p) {
            Err(e) => Err(e),
            Ok((version, p)) => match u32_read(b, p) {
                Err(e) => Err(e),
                Ok((n, p)) => match tensors_at(b, p, n as nat) {
                    Err(e) => Err(e),
                    Ok((params, p)) => match opt_at(b, p) {
                        Err(e) => Err(e),
                        Ok(opt) => Ok(ModelView { name, version, params, opt }),
                    },
                },
            },
        },
    }
}

pub open spec fn fragment_at(b: Seq<u8>, p: int) -> Result<(FragmentView, int), RtwError> {
    match u64_read(b, p) {
        Err(e) => Err(e),
        Ok((id, p)) => match f32s_at(b, p) {
            Err(e) => Err(e),
            Ok((state, p)) => if b.len() - p < 4 {
                Err(RtwError::Short(Field::Strength))
            } else {
                Ok((FragmentView { id, state, strength: u32_at(b, p) }, p + 4))
            },
        },
    }
}

pub open spec fn fragments_at(b: Seq<u8>, p: int, n: nat) -> Result<
    (Seq<FragmentView>, int),
    RtwError,
>
    decreases n,
{
    if n == 0 {
        Ok((Seq::empty(), p))
    } else {
        match fragment_at(b, p) {
            Err(e) => Err(e),
            Ok((f, q)) => match fragments_at(b, q, (n - 1) as nat) {
                Err(e) => Err(e),
                Ok((fs, r)) => Ok((seq![f] + fs, r)),
            },
        }
    }
}

/// What `decode_memory` makes of a payload. Bytes after the last fragment
/// are not inspected.
pub open spec fn decode_memory_spec(b: Seq<u8>) -> Result<MemoryView, RtwError> {
    match u32_read(b, 0) {
        Err(e) => Err(e),
        Ok((n, p)) => match fragments_at(b, p, n as nat) {
            Err(e) => Err(e),
            Ok((fragments, _)) => Ok(MemoryView { fragments }),
        },
    }
}

pub open spec fn model_result(r: Result<Model, RtwError>) -> Result<ModelView, RtwError> {
    match r {
        Ok(m) => Ok(m@),
        Err(e) => Err(e),
    }
}

pub open spec fn memory_result(r: Result<Memory, RtwError>) -> Result<MemoryView, RtwError> {
    match r {
        Ok(m) => Ok(m@),
        Err(e) => Err(e),
    }
}

/// Prepend the values already read to what the rest of a list yields.
pub open spec fn after<A>(acc: Seq<A>, r: Result<(Seq<A>, int), RtwError>) -> Result<
    (Seq<A>, int),
    RtwError,
> {
    match r {
        Ok((rest, q)) => Ok((acc + rest, q)),
        Err(e) => Err(e),
    }
}

// ---------------------------------------------------------------------------
// Writers.
// ---------------------------------------------------------------------------
fn put_str(w: &mut Vec<u8>, s: &str)
    ensures
        final(w)@ == old(w)@ + str_bytes(s@),
{
    put_bytes(w, s.as_bytes());
}

fn put_f32s(w: &mut Vec<u8>, v: &[u32])
    ensures
        final(w)@ == old(w)@ + f32s_bytes(v@),
{
    let mut b: Vec<u8> = Vec::new();
    let mut i: usize = 0;
    while i < v.len()
        invariant
            0 <= i <= v@.len(),
            b@ == words_bytes(v@.subrange(0, i as int)),
        decreases v@.len() - i,
    {
        put_u32(&mut b, v[i]);
        proof {
            assert(v@.subrange(0, i + 1).drop_last() =~= v@.subrange(0, i as int));
        }
        i = i + 1;
    }
    assert(v@.subrange(0, v@.len() as int) =~= v@);
    put_bytes(w, b.as_slice());
}

fn put_shape(w: &mut Vec<u8>, shape: &Vec<u32>)
    ensures
        final(w)@ == old(w)@ + spec_u32_to_le_bytes(shape@.len() as u32) + words_bytes(shape@),
{
    put_u32(w, shape.len() as u32);
    let ghost head = w@;
    let mut i: usize = 0;
    while i < shape.len()
        invariant
            0 <= i <= shape@.len(),
            w@ == head + words_bytes(shape@.subrange(0, i as int)),
        decreases shape@.len() - i,
    {
        put_u32(w, shape[i]);
        proof {
            assert(shape@.subrange(0, i + 1).drop_last() =~= shape@.subrange(0, i as int));
        }
        i = i + 1;
    }
    assert(shape@.subrange(0, shape@.len() as int) =~= shape@);
}

proof fn lemma_flatten_step<A>(s: Seq<A>, i: int, f: spec_fn(A) -> Seq<u8>)
    requires
        0 <= i < s.len(),
    ensures
        s.subrange(0, i + 1).map_values(f).flatten() == s.subrange(0, i).map_values(f).flatten()
            + f(s[i]),
{
    let a = s.subrange(0, i).map_values(f);
    assert(s.subrange(0, i + 1).map_values(f) =~= a.push(f(s[i])));
    a.lemma_flatten_push(f(s[i]));
}

fn put_lists(w: &mut Vec<u8>, ls: &Vec<Vec<u32>>)
    ensures
        final(w)@ == old(w)@ + lists_bytes(lists_view(ls@)),
{
    let ghost f = |l: Seq<u32>| f32s_bytes(l);
    let ghost lv = lists_view(ls@);
    put_u32(w, ls.len() as u32);
    let ghost head = w@;
    let mut i: usize = 0;
    while i < ls.len()
        invariant
            0 <= i <= ls@.len(),
            lv == lists_view(ls@),
            f == (|l: Seq<u32>| f32s_bytes(l)),
            w@ == head + lv.subrange(0, i as int).map_values(f).flatten(),
        decreases ls@.len() - i,
    {
        put_f32s(w, ls[i].as_slice());
        proof {
            lemma_flatten_step(lv, i as int, f);
        }
        i = i + 1;
    }
    assert(lv.subrange(0, lv.len() as int) =~= lv);
}

/// Encode a model into its self-describing payload (for kind model).
pub fn encode_model(m: &Model) -> (res: Vec<u8>)
    ensures
        res@ == encode_model_spec(m@),
{
    let ghost f = |p: TensorView| tensor_bytes(p);
    let ghost pv = m@.params;
    let mut w: Vec<u8> = Vec::new();
    put_str(&mut w, m.name.as_str());
    put_u32(&mut w, m.version);
    put_u32(&mut w, m.params.len() as u32);
    let ghost head = w@;
    let mut i: usize = 0;
    while i < m.params.len()
        invariant
            0 <= i <= m.params@.len(),
            pv == m@.params,
            f == (|p: TensorView| tensor_bytes(p)),
            w@ == head + pv.subrange(0, i as int).map_values(f).flatten(),
        decreases m.params@.len() - i,
    {
        let p = &m.params[i];
        let ghost before = w@;
        put_str(&mut w, p.name.as_str());
        put_shape(&mut w, &p.shape);
        w.push(p.dtype);
        put_f32s(&mut w, p.data.as_slice());
        proof {
            assert(w@ =~= before + tensor_bytes(pv[i as int]));
            lemma_flatten_step(pv, i as int, f);
        }
        i = i + 1;
    }
    assert(pv.subrange(0, pv.len() as int) =~= pv);
    let ghost body = w@;
    match &m.opt {
        Some(o) => {
            w.push(1);
            put_u64(&mut w, o.t);
            put_lists(&mut w, &o.m);
            put_lists(&mut w, &o.v);
        },
        None => {
            w.push(0);
        },
    }
    assert(w@ =~= body + opt_bytes(m@.opt));
    assert(w@ =~= encode_model_spec(m@));
    w
}

/// Encode a memory into its self-describing payload (for kind memory).
pub fn encode_memory(m: &Memory) -> (res: Vec<u8>)
    ensures
        res@ == encode_memory_spec(m@),
{
    let ghost f = |x: FragmentView| fragment_bytes(x);
    let ghost fv = m@.fragments;
    let mut w: Vec<u8> = Vec::new();
    put_u32(&mut w, m.fragments.len() as u32);
    let ghost head = w@;
    let mut i: usize = 0;
    while i < m.fragments.len()
        invariant
            0 <= i <= m.fragments@.len(),
            fv == m@.fragments,
            f == (|x: FragmentView| fragment_bytes(x)),
            w@ == head + fv.subrange(0, i as int).map_values(f).flatten(),
        decreases m.fragments@.len() - i,
    {
        let fr = &m.fragments[i];
        let ghost before = w@;
        put_u64(&mut w, fr.id);
        put_f32s(&mut w, fr.state.as_slice());
        put_u32(&mut w, fr.strength);
        proof {
            assert(w@ =~= before + fragment_bytes(fv[i as int]));
            lemma_flatten_step(fv, i as int, f);
        }
        i = i + 1;
    }
    assert(fv.subrange(0, fv.len() as int) =~= fv);
    assert(w@ =~= encode_memory_spec(m@));
    w
}

/// Wrap a model into a full container of kind model.
pub fn model_rtw(m: &Model) -> (res: Rtw)
    ensures
        res.kind == KIND_MODEL,
        res.dtype == DTYPE_BYTES,
        res.shape@ == seq![m.params@.len() as u32],
        res.data@ == encode_model_spec(m@),
        res.kernel is None,
{
    Rtw {
        kind: KIND_MODEL,
        dtype: DTYPE_BYTES,
        shape: vec![m.params.len() as u32],
        data: encode_model(m),
        kernel: None,
    }
}

/// Wrap a memory into a full container of kind memory.
pub fn memory_rtw(m: &Memory) -> (res: Rtw)
    ensures
        res.kind == KIND_MEMORY,
        res.dtype == DTYPE_BYTES,
        res.shape@ == seq![m.fragments@.len() as u32],
        res.data@ == encode_memory_spec(m@),
        res.kernel is None,
{
    Rtw {
        kind: KIND_MEMORY,
        dtype: DTYPE_BYTES,
        shape: vec![m.fragments.len() as u32],
        data: encode_memory(m),
        kernel: None,
    }
}

// ---------------------------------------------------------------------------
// Readers.
// ---------------------------------------------------------------------------
fn rd_str(b: &[u8], pos: &mut usize) -> (res: Result<String, RtwError>)
    requires
        *old(pos) <= b@.len(),
    ensures
        *final(pos) <= b@.len(),
        match str_at(b@, *old(pos) as int) {
            Ok((s, q)) => res matches Ok(r) && r@ == s && *final(pos) == q,
            Err(e) => res == Err::<String, RtwError>(e),
        },
{
    let v = rd_bytes(b, pos)?;
    match string_from_utf8(v) {
        Some(s) => Ok(s),
        None => Err(RtwError::BadUtf8),
    }
}

fn rd_f32s(b: &[u8], pos: &mut usize) -> (res: Result<Vec<u32>, RtwError>)
    requires
        *old(pos) <= b@.len(),
    ensures
        *final(pos) <= b@.len(),
        match f32s_at(b@, *old(pos) as int) {
            Ok((v, q)) => res matches Ok(r) && r@ == v && *final(pos) == q,
            Err(e) => res == Err::<Vec<u32>, RtwError>(e),
        },
{
    let bytes = rd_bytes(b, pos)?;
    if bytes.len() % 4 != 0 {
        return Err(RtwError::BadF32Block);
    }
    let n = bytes.len() / 4;
    let mut out: Vec<u32> = Vec::new();
    let mut i: usize = 0;
    while i < n
        invariant
            0 <= i <= n,
            n == bytes@.len() / 4,
            4 * n == bytes@.len(),
            bytes@.len() <= usize::MAX,
            bytes@.len() % 4 == 0,
            out@ == words_at(bytes@, 0, n as nat).subrange(0, i as int),
        decreases n - i,
    {
        let w = u32_from_le_bytes(slice_subrange(bytes.as_slice(), 4 * i, 4 * i + 4));
        out.push(w);
        i = i + 1;
        assert(out@ =~= words_at(bytes@, 0, n as nat).subrange(0, i as int));
    }
    assert(out@ =~= words_at(bytes@, 0, n as nat));
    Ok(out)
}

fn rd_tensor(b: &[u8], pos: &mut usize) -> (res: Result<NamedTensor, RtwError>)
    requires
        *old(pos) <= b@.len(),
    ensures
        *final(pos) <= b@.len(),
        match tensor_at(b@, *old(pos) as int) {
            Ok((t, q)) => res matches Ok(r) && r@ == t && *final(pos) == q,
            Err(e) => res matches Err(x) && x == e,
        },
{
    let name = rd_str(b, pos)?;
    let rank32 = rd_u32(b, pos)?;
    let rank = rank32 as usize;
    if ((b.len() - *pos) as u64) < (rank32 as u64) * 4 {
        return Err(RtwError::Short(Field::Shape));
    }
    let ghost start = *pos;
    let mut shape: Vec<u32> = Vec::with_capacity(rank);
    let mut i: usize = 0;
    while i < rank
        invariant
            0 <= i <= rank,
            *pos == start + 4 * i,
            b@.len() - start >= 4 * rank,
            shape@ == words_at(b@, start as int, rank as nat).subrange(0, i as int),
        decreases rank - i,
    {
        let s = rd_u32(b, pos)?;
        shape.push(s);
        i = i + 1;
        assert(shape@ =~= words_at(b@, start as int, rank as nat).subrange(0, i as int));
    }
    assert(shape@ =~= words_at(b@, start as int, rank as nat));
    if b.len() - *pos < 1 {
        return Err(RtwError::Short(Field::Dtype));
    }
    let dtype = b[*pos];
    *pos = *pos + 1;
    let data = rd_f32s(b, pos)?;
    Ok(NamedTensor { name, shape, dtype, data })
}

#[verifier::loop_isolation(false)]
fn rd_lists(b: &[u8], pos: &mut usize) -> (res: Result<Vec<Vec<u32>>, RtwError>)
    requires
        *old(pos) <= b@.len(),
    ensures
        *final(pos) <= b@.len(),
        match lists_at(b@, *old(pos) as int) {
            Ok((ls, q)) => res matches Ok(r) && lists_view(r@) == ls && *final(pos) == q,
            Err(e) => res matches Err(x) && x == e,
        },
{
    let n = rd_u32(b, pos)? as usize;
    let ghost p0 = *pos;
    let mut out: Vec<Vec<u32>> = Vec::with_capacity(cap_for(n, 4, b.len() - *pos));
    let mut i: usize = 0;
    while i < n
        invariant
            0 <= i <= n,
            *pos <= b@.len(),
            blocks_at(b@, p0 as int, n as nat) == after(
                lists_view(out@),
                blocks_at(b@, *pos as int, (n - i) as nat),
            ),
        decreases n - i,
    {
        let ghost here = *pos;
        let l = match rd_f32s(b, pos) {
            Ok(l) => l,
            Err(e) => {
                assert(blocks_at(b@, here as int, (n - i) as nat) == Err::<
                    (Seq<Seq<u32>>, int),
                    RtwError,
                >(e));
                return Err(e);
            },
        };
        proof {
            let rest = blocks_at(b@, *pos as int, (n - i - 1) as nat);
            let acc = lists_view(out@);
            assert(lists_view(out@.push(l)) =~= acc.push(l@));
            match rest {
                Ok((ls, r)) => {
                    assert(acc + (seq![l@] + ls) =~= acc.push(l@) + ls);
                },
                Err(e) => {},
            }
        }
        out.push(l);
        i = i + 1;
    }
    assert(lists_view(out@) + Seq::<Seq<u32>>::empty() =~= lists_view(out@));
    Ok(out)
}

/// Decode a model payload produced by `encode_model`.
#[verifier::loop_isolation(false)]
pub fn decode_model(bytes: &[u8]) -> (res: Result<Model, RtwError>)
    ensures
        model_result(res) == decode_model_spec(bytes@),
{
    let mut pos: usize = 0;
    let name = rd_str(bytes, &mut pos)?;
    let version = rd_u32(bytes, &mut pos)?;
    let nparams = rd_u32(bytes, &mut pos)? as usize;
    let ghost p0 = pos;
    // A hostile count must not drive a huge allocation: each param needs at
    // least four bytes.
    let mut params: Vec<NamedTensor> = Vec::with_capacity(cap_for(nparams, 4, bytes.len() - pos));
    let mut i: usize = 0;
    while i < nparams
        invariant
            0 <= i <= nparams,
            pos <= bytes@.len(),
            tensors_at(bytes@, p0 as int, nparams as nat) == after(
                params@.map_values(|p: NamedTensor| p@),
                tensors_at(bytes@, pos as int, (nparams - i) as nat),
            ),
        decreases nparams - i,
    {
        let ghost here = pos;
        let t = match rd_tensor(bytes, &mut pos) {
            Ok(t) => t,
            Err(e) => {
                assert(tensors_at(bytes@, here as int, (nparams - i) as nat) == Err::<
                    (Seq<TensorView>, int),
                    RtwError,
                >(e));
                return Err(e);
            },
        };
        proof {
            let rest = tensors_at(bytes@, pos as int, (nparams - i - 1) as nat);
            let acc = params@.map_values(|p: NamedTensor| p@);
            assert(params@.push(t).map_values(|p: NamedTensor| p@) =~= acc.push(t@));
            match rest {
                Ok((ts, r)) => {
                    assert(acc + (seq![t@] + ts) =~= acc.push(t@) + ts);
                },
                Err(e) => {},
            }
        }
        params.push(t);
        i = i + 1;
    }
    assert(params@.map_values(|p: NamedTensor| p@) + Seq::<TensorView>::empty() =~= params@.map_values(
        |p: NamedTensor| p@,
    ));
    if bytes.len() - pos < 1 {
        return Err(RtwError::Short(Field::OptFlag));
    }
    let has_opt = bytes[pos];
    pos = pos + 1;
    let opt = if has_opt != 0 {
        let t = rd_u64(bytes, &mut pos)?;
        let m = rd_lists(bytes, &mut pos)?;
        let v = rd_lists(bytes, &mut pos)?;
        Some(OptState { m, v, t })
    } else {
        None
    };
    Ok(Model { name, version, params, opt })
}

fn rd_fragment(b: &[u8], pos: &mut usize) -> (res: Result<MemoryFragment, RtwError>)
    requires
        *old(pos) <= b@.len(),
    ensures
        *final(pos) <= b@.len(),
        match fragment_at(b@, *old(pos) as int) {
            Ok((f, q)) => res matches Ok(r) && r@ == f && *final(pos) == q,
            Err(e) => res matches Err(x) && x == e,
        },
{
    let id = rd_u64(b, pos)?;
    let state = rd_f32s(b, pos)?;
    if b.len() - *pos < 4 {
        return Err(RtwError::Short(Field::Strength));
    }
    let strength = u32_from_le_bytes(slice_subrange(b, *pos, *pos + 4));
    *pos = *pos + 4;
    Ok(MemoryFragment { id, state, strength })
}

/// Decode a memory payload produced by `encode_memory`.
#[verifier::loop_isolation(false)]
pub fn decode_memory(bytes: &[u8]) -> (res: Result<Memory, RtwError>)
    ensures
        memory_result(res) == decode_memory_spec(bytes@),
{
    let mut pos: usize = 0;
    let n = rd_u32(bytes, &mut pos)? as usize;
    let ghost p0 = pos;
    // Each fragment needs at least eight bytes (id, state length, strength).
    let mut frags: Vec<MemoryFragment> = Vec::with_capacity(cap_for(n, 8, bytes.len() - pos));
    let mut i: usize = 0;
    while i < n
        invariant
            0 <= i <= n,
            pos <= bytes@.len(),
            fragments_at(bytes@, p0 as int, n as nat) == after(
                frags@.map_values(|f: MemoryFragment| f@),
                fragments_at(bytes@, pos as int, (n - i) as nat),
            ),
        decreases n - i,
    {
        let ghost here = pos;
        let f = match rd_fragment(bytes, &mut pos) {
            Ok(f) => f,
            Err(e) => {
                assert(fragments_at(bytes@, here as int, (n - i) as nat) == Err::<
                    (Seq<FragmentView>, int),
                    RtwError,
                >(e));
                return Err(e);
            },
        };
        proof {
            let rest = fragments_at(bytes@, pos as int, (n - i - 1) as nat);
            let acc = frags@.map_values(|f: MemoryFragment| f@);
            assert(frags@.push(f).map_values(|f: MemoryFragment| f@) =~= acc.push(f@));
            match rest {
                Ok((fs, r)) => {
                    assert(acc + (seq![f@] + fs) =~= acc.push(f@) + fs);
                },
                Err(e) => {},
            }
        }
        frags.push(f);
        i = i + 1;
    }
    assert(frags@.map_values(|f: MemoryFragment| f@) + Seq::<FragmentView>::empty()
        =~= frags@.map_values(|f: MemoryFragment| f@));
    Ok(Memory { fragments: frags })
}

// ---------------------------------------------------------------------------
// Round trips.
// ---------------------------------------------------------------------------
/// `x` sits in `b` at offset `p`.
pub open spec fn bytes_at(b: Seq<u8>, p: int, x: Seq<u8>) -> bool {
    0 <= p && p + x.len() <= b.len() && b.subrange(p, p + x.len()) == x
}

/// Every length field of the tensor fits its `u32`.
pub open spec fn tensor_fits(t: TensorView) -> bool {
    &&& encode_utf8(t.name).len() <= u32::MAX
    &&& t.shape.len() <= u32::MAX
    &&& 4 * t.data.len() <= u32::MAX
}

pub open spec fn lists_fit(ls: Seq<Seq<u32>>) -> bool {
    &&& ls.len() <= u32::MAX
    &&& forall|i: int| 0 <= i < ls.len() ==> 4 * (#[trigger] ls[i]).len() <= u32::MAX
}

/// Every length field of the model payload fits its `u32`.
pub open spec fn model_fits(m: ModelView) -> bool {
    &&& encode_utf8(m.name).len() <= u32::MAX
    &&& m.params.len() <= u32::MAX
    &&& forall|i: int| 0 <= i < m.params.len() ==> tensor_fits(#[trigger] m.params[i])
    &&& m.opt matches Some(o) ==> lists_fit(o.m) && lists_fit(o.v)
}

/// Every length field of the memory payload fits its `u32`.
pub open spec fn memory_fits(m: MemoryView) -> bool {
    &&& m.fragments.len() <= u32::MAX
    &&& forall|i: int|
        0 <= i < m.fragments.len() ==> 4 * (#[trigger] m.fragments[i]).state.len() <= u32::MAX
}

proof fn lemma_split(b: Seq<u8>, p: int, x: Seq<u8>, y: Seq<u8>)
    requires
        bytes_at(b, p, x + y),
    ensures
        bytes_at(b, p, x),
        bytes_at(b, p + x.len(), y),
{
    let whole = b.subrange(p, p + (x + y).len());
    assert(whole == x + y);
    assert(b.subrange(p, p + x.len()) =~= whole.subrange(0, x.len() as int));
    assert(whole.subrange(0, x.len() as int) =~= x);
    assert(b.subrange(p + x.len(), p + x.len() + y.len()) =~= whole.subrange(
        x.len() as int,
        whole.len() as int,
    ));
    assert(whole.subrange(x.len() as int, whole.len() as int) =~= y);
}

proof fn lemma_u32_read(b: Seq<u8>, p: int, x: u32)
    requires
        bytes_at(b, p, spec_u32_to_le_bytes(x)),
    ensures
        u32_read(b, p) == Ok::<(u32, int), RtwError>((x, p + 4)),
{
    lemma_le_roundtrips();
}

proof fn lemma_u64_read(b: Seq<u8>, p: int, x: u64)
    requires
        bytes_at(b, p, spec_u64_to_le_bytes(x)),
    ensures
        u64_read(b, p) == Ok::<(u64, int), RtwError>((x, p + 8)),
{
    lemma_le_roundtrips();
}

proof fn lemma_block_at(b: Seq<u8>, p: int, x: Seq<u8>)
    requires
        bytes_at(b, p, block_bytes(x)),
        x.len() <= u32::MAX,
    ensures
        block_at(b, p) == Ok::<(Seq<u8>, int), RtwError>((x, p + 4 + x.len())),
{
    lemma_le_roundtrips();
    lemma_split(b, p, spec_u32_to_le_bytes(x.len() as u32), x);
}

proof fn lemma_str_at(b: Seq<u8>, p: int, s: Seq<char>)
    requires
        bytes_at(b, p, str_bytes(s)),
        encode_utf8(s).len() <= u32::MAX,
    ensures
        str_at(b, p) == Ok::<(Seq<char>, int), RtwError>((s, p + str_bytes(s).len())),
{
    lemma_le_roundtrips();
    lemma_block_at(b, p, encode_utf8(s));
    vstd::utf8::encode_utf8_valid_utf8(s);
    vstd::utf8::encode_utf8_decode_utf8(s);
}

proof fn lemma_f32s_at(b: Seq<u8>, p: int, ws: Seq<u32>)
    requires
        bytes_at(b, p, f32s_bytes(ws)),
        4 * ws.len() <= u32::MAX,
    ensures
        f32s_at(b, p) == Ok::<(Seq<u32>, int), RtwError>((ws, p + f32s_bytes(ws).len())),
{
    lemma_le_roundtrips();
    lemma_words_bytes(ws);
    lemma_block_at(b, p, words_bytes(ws));
    lemma_words_at(Seq::empty(), ws, Seq::empty());
    assert(Seq::<u8>::empty() + words_bytes(ws) + Seq::<u8>::empty() =~= words_bytes(ws));
}

proof fn lemma_shape_at(b: Seq<u8>, p: int, shape: Seq<u32>)
    requires
        bytes_at(b, p, words_bytes(shape)),
    ensures
        words_at(b, p, shape.len()) == shape,
{
    lemma_words_bytes(shape);
    let pre = b.subrange(0, p);
    let post = b.subrange(p + 4 * shape.len(), b.len() as int);
    assert(pre + words_bytes(shape) + post =~= b);
    lemma_words_at(pre, shape, post);
}

proof fn lemma_tensor_at(b: Seq<u8>, p: int, t: TensorView)
    requires
        bytes_at(b, p, tensor_bytes(t)),
        tensor_fits(t),
    ensures
        tensor_at(b, p) == Ok::<(TensorView, int), RtwError>((t, p + tensor_bytes(t).len())),
{
    lemma_le_roundtrips();
    lemma_words_bytes(t.shape);
    let a = str_bytes(t.name);
    let r = spec_u32_to_le_bytes(t.shape.len() as u32);
    let s = words_bytes(t.shape);
    let d = seq![t.dtype];
    let f = f32s_bytes(t.data);
    assert(tensor_bytes(t) == a + r + s + d + f);
    lemma_split(b, p, a + r + s + d, f);
    lemma_split(b, p, a + r + s, d);
    lemma_split(b, p, a + r, s);
    lemma_split(b, p, a, r);
    lemma_str_at(b, p, t.name);
    lemma_u32_read(b, p + a.len(), t.shape.len() as u32);
    lemma_shape_at(b, p + a.len() + 4, t.shape);
    assert(b[p + a.len() + 4 + s.len()] == t.dtype) by {
        assert(b.subrange(p + a.len() + 4 + s.len(), p + a.len() + 4 + s.len() + 1)[0] == t.dtype);
    }
    lemma_f32s_at(b, p + a.len() + 4 + s.len() + 1, t.data);
}

proof fn lemma_flatten_first<A>(s: Seq<A>, f: spec_fn(A) -> Seq<u8>)
    requires
        s.len() > 0,
    ensures
        s.map_values(f).flatten() == f(s[0]) + s.drop_first().map_values(f).flatten(),
{
    assert(s.map_values(f).drop_first() =~= s.drop_first().map_values(f));
}

proof fn lemma_tensors_at(b: Seq<u8>, p: int, ts: Seq<TensorView>)
    requires
        bytes_at(b, p, ts.map_values(|t: TensorView| tensor_bytes(t)).flatten()),
        forall|i: int| 0 <= i < ts.len() ==> tensor_fits(#[trigger] ts[i]),
    ensures
        tensors_at(b, p, ts.len()) == Ok::<(Seq<TensorView>, int), RtwError>(
            (ts, p + ts.map_values(|t: TensorView| tensor_bytes(t)).flatten().len()),
        ),
    decreases ts.len(),
{
    let f = |t: TensorView| tensor_bytes(t);
    if ts.len() > 0 {
        let rest = ts.drop_first();
        lemma_flatten_first(ts, f);
        lemma_split(b, p, f(ts[0]), rest.map_values(f).flatten());
        lemma_tensor_at(b, p, ts[0]);
        assert(tensor_fits(ts[0]));
        assert forall|i: int| 0 <= i < rest.len() implies tensor_fits(#[trigger] rest[i]) by {
            assert(rest[i] == ts[i + 1]);
        }
        lemma_tensors_at(b, p + tensor_bytes(ts[0]).len(), rest);
        assert(seq![ts[0]] + rest =~= ts);
    } else {
        assert(ts.map_values(f).flatten() =~= Seq::<u8>::empty());
        assert(ts =~= Seq::<TensorView>::empty());
    }
}

proof fn lemma_blocks_at(b: Seq<u8>, p: int, ls: Seq<Seq<u32>>)
    requires
        bytes_at(b, p, ls.map_values(|l: Seq<u32>| f32s_bytes(l)).flatten()),
        forall|i: int| 0 <= i < ls.len() ==> 4 * (#[trigger] ls[i]).len() <= u32::MAX,
    ensures
        blocks_at(b, p, ls.len()) == Ok::<(Seq<Seq<u32>>, int), RtwError>(
            (ls, p + ls.map_values(|l: Seq<u32>| f32s_bytes(l)).flatten().len()),
        ),
    decreases ls.len(),
{
    let f = |l: Seq<u32>| f32s_bytes(l);
    if ls.len() > 0 {
        let rest = ls.drop_first();
        lemma_flatten_first(ls, f);
        lemma_split(b, p, f(ls[0]), rest.map_values(f).flatten());
        assert(4 * ls[0].len() <= u32::MAX);
        lemma_f32s_at(b, p, ls[0]);
        assert forall|i: int| 0 <= i < rest.len() implies 4 * (#[trigger] rest[i]).len()
            <= u32::MAX by {
            assert(rest[i] == ls[i + 1]);
        }
        lemma_blocks_at(b, p + f32s_bytes(ls[0]).len(), rest);
        assert(seq![ls[0]] + rest =~= ls);
    } else {
        assert(ls.map_values(f).flatten() =~= Seq::<u8>::empty());
        assert(ls =~= Seq::<Seq<u32>>::empty());
    }
}

proof fn lemma_lists_at(b: Seq<u8>, p: int, ls: Seq<Seq<u32>>)
    requires
        bytes_at(b, p, lists_bytes(ls)),
        lists_fit(ls),
    ensures
        lists_at(b, p) == Ok::<(Seq<Seq<u32>>, int), RtwError>((ls, p + lists_bytes(ls).len())),
{
    let hdr = spec_u32_to_le_bytes(ls.len() as u32);
    let body = ls.map_values(|l: Seq<u32>| f32s_bytes(l)).flatten();
    lemma_le_roundtrips();
    lemma_split(b, p, hdr, body);
    lemma_u32_read(b, p, ls.len() as u32);
    lemma_blocks_at(b, p + 4, ls);
}

proof fn lemma_opt_at(b: Seq<u8>, p: int, o: Option<OptView>)
    requires
        bytes_at(b, p, opt_bytes(o)),
        o matches Some(s) ==> lists_fit(s.m) && lists_fit(s.v),
    ensures
        opt_at(b, p) == Ok::<Option<OptView>, RtwError>(o),
{
    lemma_le_roundtrips();
    match o {
        None => {
            assert(b[p] == opt_bytes(o)[0]);
        },
        Some(s) => {
            let x = seq![1u8];
            let t = spec_u64_to_le_bytes(s.t);
            let m = lists_bytes(s.m);
            let v = lists_bytes(s.v);
            assert(opt_bytes(o) == x + t + m + v);
            lemma_split(b, p, x + t + m, v);
            lemma_split(b, p, x + t, m);
            lemma_split(b, p, x, t);
            assert(b[p] == x[0]) by {
                assert(b.subrange(p, p + 1)[0] == x[0]);
            }
            lemma_u64_read(b, p + 1, s.t);
            lemma_lists_at(b, p + 9, s.m);
            lemma_lists_at(b, p + 9 + m.len(), s.v);
        },
    }
}

/// Decoding what `encode_model` wrote gives back the same model, as long as
/// every length field fits its `u32`.
pub proof fn lemma_decode_encode_model(m: ModelView)
    requires
        model_fits(m),
    ensures
        decode_model_spec(encode_model_spec(m)) == Ok::<ModelView, RtwError>(m),
{
    lemma_le_roundtrips();
    let b = encode_model_spec(m);
    let a = str_bytes(m.name);
    let v = spec_u32_to_le_bytes(m.version);
    let n = spec_u32_to_le_bytes(m.params.len() as u32);
    let ps = m.params.map_values(|t: TensorView| tensor_bytes(t)).flatten();
    let o = opt_bytes(m.opt);
    assert(b.subrange(0, b.len() as int) =~= b);
    assert(bytes_at(b, 0, a + v + n + ps + o));
    lemma_split(b, 0, a + v + n + ps, o);
    lemma_split(b, 0, a + v + n, ps);
    lemma_split(b, 0, a + v, n);
    lemma_split(b, 0, a, v);
    lemma_str_at(b, 0, m.name);
    lemma_u32_read(b, a.len() as int, m.version);
    lemma_u32_read(b, a.len() + 4int, m.params.len() as u32);
    lemma_tensors_at(b, a.len() + 8int, m.params);
    lemma_opt_at(b, a.len() + 8int + ps.len(), m.opt);
}

proof fn lemma_fragment_at(b: Seq<u8>, p: int, f: FragmentView)
    requires
        bytes_at(b, p, fragment_bytes(f)),
        4 * f.state.len() <= u32::MAX,
    ensures
        fragment_at(b, p) == Ok::<(FragmentView, int), RtwError>((f, p + fragment_bytes(f).len())),
{
    lemma_le_roundtrips();
    let i = spec_u64_to_le_bytes(f.id);
    let s = f32s_bytes(f.state);
    let st = spec_u32_to_le_bytes(f.strength);
    lemma_split(b, p, i + s, st);
    lemma_split(b, p, i, s);
    lemma_u64_read(b, p, f.id);
    lemma_f32s_at(b, p + 8, f.state);
    lemma_u32_read(b, p + 8 + s.len(), f.strength);
}

proof fn lemma_fragments_at(b: Seq<u8>, p: int, fs: Seq<FragmentView>)
    requires
        bytes_at(b, p, fs.map_values(|f: FragmentView| fragment_bytes(f)).flatten()),
        forall|i: int| 0 <= i < fs.len() ==> 4 * (#[trigger] fs[i]).state.len() <= u32::MAX,
    ensures
        fragments_at(b, p, fs.len()) == Ok::<(Seq<FragmentView>, int), RtwError>(
            (fs, p + fs.map_values(|f: FragmentView| fragment_bytes(f)).flatten().len()),
        ),
    decreases fs.len(),
{
    let g = |f: FragmentView| fragment_bytes(f);
    if fs.len() > 0 {
        let rest = fs.drop_first();
        lemma_flatten_first(fs, g);
        lemma_split(b, p, g(fs[0]), rest.map_values(g).flatten());
        assert(4 * fs[0].state.len() <= u32::MAX);
        lemma_fragment_at(b, p, fs[0]);
        assert forall|i: int| 0 <= i < rest.len() implies 4 * (#[trigger] rest[i]).state.len()
            <= u32::MAX by {
            assert(rest[i] == fs[i + 1]);
        }
        lemma_fragments_at(b, p + fragment_bytes(fs[0]).len(), rest);
        assert(seq![fs[0]] + rest =~= fs);
    } else {
        assert(fs.map_values(g).flatten() =~= Seq::<u8>::empty());
        assert(fs =~= Seq::<FragmentView>::empty());
    }
}

/// Decoding what `encode_memory` wrote gives back the same memory, as long
/// as every length field fits its `u32`.
pub proof fn lemma_decode_encode_memory(m: MemoryView)
    requires
        memory_fits(m),
    ensures
        decode_memory_spec(encode_memory_spec(m)) == Ok::<MemoryView, RtwError>(m),
{
    lemma_le_roundtrips();
    let b = encode_memory_spec(m);
    let n = spec_u32_to_le_bytes(m.fragments.len() as u32);
    let body = m.fragments.map_values(|f: FragmentView| fragment_bytes(f)).flatten();
    assert(b.subrange(0, b.len() as int) =~= b);
    lemma_split(b, 0, n, body);
    lemma_u32_read(b, 0, m.fragments.len() as u32);
    lemma_fragments_at(b, 4, m.fragments);
}

// ---------------------------------------------------------------------------
// Cut input: every reader fails on an encoding that the input ends inside.
// ---------------------------------------------------------------------------
/// `b` ends inside `x`, which starts at offset `p`: the bytes present agree
/// with `x`, and some of `x` is missing.
pub open spec fn cut_at(b: Seq<u8>, p: int, x: Seq<u8>) -> bool {
    0 <= p <= b.len() < p + x.len() && b.subrange(p, b.len() as int) == x.subrange(
        0,
        b.len() - p,
    )
}

/// Where the input ends inside `x + y`, it ends inside `x`, or holds all of
/// `x` and ends inside `y`.
proof fn lemma_cut_split(b: Seq<u8>, p: int, x: Seq<u8>, y: Seq<u8>)
    requires
        cut_at(b, p, x + y),
    ensures
        (b.len() < p + x.len() && cut_at(b, p, x)) || (bytes_at(b, p, x) && cut_at(
            b,
            p + x.len(),
            y,
        )),
{
    let k = b.len() - p;
    let xy = x + y;
    if k < x.len() {
        assert(xy.subrange(0, k) =~= x.subrange(0, k));
    } else {
        assert(b.subrange(p, p + x.len()) =~= b.subrange(p, b.len() as int).subrange(
            0,
            x.len() as int,
        ));
        assert(xy.subrange(0, k).subrange(0, x.len() as int) =~= x);
        assert(b.subrange(p + x.len(), b.len() as int) =~= b.subrange(p, b.len() as int).subrange(
            x.len() as int,
            k,
        ));
        assert(xy.subrange(0, k).subrange(x.len() as int, k) =~= y.subrange(0, k - x.len()));
    }
}

proof fn lemma_cut_block(b: Seq<u8>, p: int, x: Seq<u8>)
    requires
        cut_at(b, p, block_bytes(x)),
        x.len() <= u32::MAX,
    ensures
        block_at(b, p) is Err,
{
    lemma_le_roundtrips();
    let hdr = spec_u32_to_le_bytes(x.len() as u32);
    lemma_cut_split(b, p, hdr, x);
    if bytes_at(b, p, hdr) {
        assert(u32_at(b, p) == x.len());
    }
}

proof fn lemma_cut_f32s(b: Seq<u8>, p: int, ws: Seq<u32>)
    requires
        cut_at(b, p, f32s_bytes(ws)),
        4 * ws.len() <= u32::MAX,
    ensures
        f32s_at(b, p) is Err,
{
    lemma_words_bytes(ws);
    lemma_cut_block(b, p, words_bytes(ws));
}

proof fn lemma_cut_fragment(b: Seq<u8>, p: int, f: FragmentView)
    requires
        cut_at(b, p, fragment_bytes(f)),
        4 * f.state.len() <= u32::MAX,
    ensures
        fragment_at(b, p) is Err,
{
    lemma_le_roundtrips();
    let i = spec_u64_to_le_bytes(f.id);
    let s = f32s_bytes(f.state);
    let st = spec_u32_to_le_bytes(f.strength);
    lemma_cut_split(b, p, i + s, st);
    if b.len() < p + (i + s).len() {
        lemma_cut_split(b, p, i, s);
        if bytes_at(b, p, i) {
            lemma_u64_read(b, p, f.id);
            lemma_cut_f32s(b, p + 8, f.state);
        }
    } else {
        lemma_split(b, p, i, s);
        lemma_u64_read(b, p, f.id);
        lemma_f32s_at(b, p + 8, f.state);
    }
}

proof fn lemma_cut_fragments(b: Seq<u8>, p: int, fs: Seq<FragmentView>)
    requires
        cut_at(b, p, fs.map_values(|f: FragmentView| fragment_bytes(f)).flatten()),
        forall|i: int| 0 <= i < fs.len() ==> 4 * (#[trigger] fs[i]).state.len() <= u32::MAX,
    ensures
        fragments_at(b, p, fs.len()) is Err,
    decreases fs.len(),
{
    let g = |f: FragmentView| fragment_bytes(f);
    if fs.len() == 0 {
        assert(fs.map_values(g).flatten() =~= Seq::<u8>::empty());
    } else {
        let rest = fs.drop_first();
        lemma_flatten_first(fs, g);
        lemma_cut_split(b, p, g(fs[0]), rest.map_values(g).flatten());
        assert(4 * fs[0].state.len() <= u32::MAX);
        if b.len() < p + g(fs[0]).len() {
            lemma_cut_fragment(b, p, fs[0]);
        } else {
            lemma_fragment_at(b, p, fs[0]);
            assert forall|i: int| 0 <= i < rest.len() implies 4 * (#[trigger] rest[i]).state.len()
                <= u32::MAX by {
                assert(rest[i] == fs[i + 1]);
            }
            lemma_cut_fragments(b, p + fragment_bytes(fs[0]).len(), rest);
            assert(rest.len() == (fs.len() - 1) as nat);
        }
    }
}

/// A memory payload cut short anywhere fails to decode: every strict prefix
/// of what `encode_memory` wrote is an error, never a shorter fragment list.
pub proof fn lemma_truncated_memory_rejected(m: MemoryView, k: int)
    requires
        memory_fits(m),
        0 <= k < encode_memory_spec(m).len(),
    ensures
        decode_memory_spec(encode_memory_spec(m).subrange(0, k)) is Err,
{
    lemma_le_roundtrips();
    let b = encode_memory_spec(m);
    let c = b.subrange(0, k);
    let n = spec_u32_to_le_bytes(m.fragments.len() as u32);
    let body = m.fragments.map_values(|f: FragmentView| fragment_bytes(f)).flatten();
    assert(c.subrange(0, k) =~= b.subrange(0, k));
    assert(cut_at(c, 0, n + body));
    lemma_cut_split(c, 0, n, body);
    if c.len() >= 4 {
        lemma_u32_read(c, 0, m.fragments.len() as u32);
        lemma_cut_fragments(c, 4, m.fragments);
    }
}

proof fn lemma_cut_str(b: Seq<u8>, p: int, name: Seq<char>)
    requires
        cut_at(b, p, str_bytes(name)),
        encode_utf8(name).len() <= u32::MAX,
    ensures
        str_at(b, p) is Err,
{
    lemma_cut_block(b, p, encode_utf8(name));
}

proof fn lemma_cut_tensor(b: Seq<u8>, p: int, t: TensorView)
    requires
        cut_at(b, p, tensor_bytes(t)),
        tensor_fits(t),
    ensures
        tensor_at(b, p) is Err,
{
    lemma_le_roundtrips();
    lemma_words_bytes(t.shape);
    let a = str_bytes(t.name);
    let r = spec_u32_to_le_bytes(t.shape.len() as u32);
    let sh = words_bytes(t.shape);
    let d = seq![t.dtype];
    let f = f32s_bytes(t.data);
    assert(tensor_bytes(t) == a + r + sh + d + f);
    lemma_cut_split(b, p, a + r + sh + d, f);
    if b.len() < p + (a + r + sh + d).len() {
        lemma_cut_split(b, p, a + r + sh, d);
        if b.len() < p + (a + r + sh).len() {
            lemma_cut_split(b, p, a + r, sh);
            if b.len() < p + (a + r).len() {
                lemma_cut_split(b, p, a, r);
                if b.len() < p + a.len() {
                    lemma_cut_str(b, p, t.name);
                } else {
                    lemma_str_at(b, p, t.name);
                }
            } else {
                lemma_split(b, p, a, r);
                lemma_str_at(b, p, t.name);
                lemma_u32_read(b, p + a.len(), t.shape.len() as u32);
            }
        } else {
            lemma_split(b, p, a + r, sh);
            lemma_split(b, p, a, r);
            lemma_str_at(b, p, t.name);
            lemma_u32_read(b, p + a.len(), t.shape.len() as u32);
        }
    } else {
        lemma_split(b, p, a + r + sh, d);
        lemma_split(b, p, a + r, sh);
        lemma_split(b, p, a, r);
        lemma_str_at(b, p, t.name);
        lemma_u32_read(b, p + a.len(), t.shape.len() as u32);
        lemma_cut_f32s(b, p + a.len() + 4 + sh.len() + 1, t.data);
    }
}

proof fn lemma_cut_tensors(b: Seq<u8>, p: int, ts: Seq<TensorView>)
    requires
        cut_at(b, p, ts.map_values(|t: TensorView| tensor_bytes(t)).flatten()),
        forall|i: int| 0 <= i < ts.len() ==> tensor_fits(#[trigger] ts[i]),
    ensures
        tensors_at(b, p, ts.len()) is Err,
    decreases ts.len(),
{
    let f = |t: TensorView| tensor_bytes(t);
    if ts.len() == 0 {
        assert(ts.map_values(f).flatten() =~= Seq::<u8>::empty());
    } else {
        let rest = ts.drop_first();
        lemma_flatten_first(ts, f);
        lemma_cut_split(b, p, f(ts[0]), rest.map_values(f).flatten());
        assert(tensor_fits(ts[0]));
        if b.len() < p + f(ts[0]).len() {
            lemma_cut_tensor(b, p, ts[0]);
        } else {
            lemma_tensor_at(b, p, ts[0]);
            assert forall|i: int| 0 <= i < rest.len() implies tensor_fits(#[trigger] rest[i]) by {
                assert(rest[i] == ts[i + 1]);
            }
            lemma_cut_tensors(b, p + tensor_bytes(ts[0]).len(), rest);
            assert(rest.len() == (ts.len() - 1) as nat);
        }
    }
}

proof fn lemma_cut_blocks(b: Seq<u8>, p: int, ls: Seq<Seq<u32>>)
    requires
        cut_at(b, p, ls.map_values(|l: Seq<u32>| f32s_bytes(l)).flatten()),
        forall|i: int| 0 <= i < ls.len() ==> 4 * (#[trigger] ls[i]).len() <= u32::MAX,
    ensures
        blocks_at(b, p, ls.len()) is Err,
    decreases ls.len(),
{
    let f = |l: Seq<u32>| f32s_bytes(l);
    if ls.len() == 0 {
        assert(ls.map_values(f).flatten() =~= Seq::<u8>::empty());
    } else {
        let rest = ls.drop_first();
        lemma_flatten_first(ls, f);
        lemma_cut_split(b, p, f(ls[0]), rest.map_values(f).flatten());
        assert(4 * ls[0].len() <= u32::MAX);
        if b.len() < p + f(ls[0]).len() {
            lemma_cut_f32s(b, p, ls[0]);
        } else {
            lemma_f32s_at(b, p, ls[0]);
            assert forall|i: int| 0 <= i < rest.len() implies 4 * (#[trigger] rest[i]).len()
                <= u32::MAX by {
                assert(rest[i] == ls[i + 1]);
            }
            lemma_cut_blocks(b, p + f32s_bytes(ls[0]).len(), rest);
            assert(rest.len() == (ls.len() - 1) as nat);
        }
    }
}

proof fn lemma_cut_lists(b: Seq<u8>, p: int, ls: Seq<Seq<u32>>)
    requires
        cut_at(b, p, lists_bytes(ls)),
        lists_fit(ls),
    ensures
        lists_at(b, p) is Err,
{
    lemma_le_roundtrips();
    let hdr = spec_u32_to_le_bytes(ls.len() as u32);
    let body = ls.map_values(|l: Seq<u32>| f32s_bytes(l)).flatten();
    lemma_cut_split(b, p, hdr, body);
    if bytes_at(b, p, hdr) {
        lemma_u32_read(b, p, ls.len() as u32);
        lemma_cut_blocks(b, p + 4, ls);
    }
}

proof fn lemma_cut_opt(b: Seq<u8>, p: int, o: Option<OptView>)
    requires
        cut_at(b, p, opt_bytes(o)),
        o matches Some(s) ==> lists_fit(s.m) && lists_fit(s.v),
    ensures
        opt_at(b, p) is Err,
{
    lemma_le_roundtrips();
    match o {
        None => {},
        Some(s) => {
            let x = seq![1u8];
            let t = spec_u64_to_le_bytes(s.t);
            let m = lists_bytes(s.m);
            let v = lists_bytes(s.v);
            assert(opt_bytes(o) == x + t + m + v);
            lemma_cut_split(b, p, x + t + m, v);
            if b.len() < p + (x + t + m).len() {
                lemma_cut_split(b, p, x + t, m);
                if b.len() < p + (x + t).len() {
                    lemma_cut_split(b, p, x, t);
                    if bytes_at(b, p, x) {
                        assert(b[p] == x[0]) by {
                            assert(b.subrange(p, p + 1)[0] == x[0]);
                        }
                    }
                } else {
                    lemma_split(b, p, x, t);
                    assert(b[p] == x[0]) by {
                        assert(b.subrange(p, p + 1)[0] == x[0]);
                    }
                    lemma_u64_read(b, p + 1, s.t);
                    lemma_cut_lists(b, p + 9, s.m);
                }
            } else {
                lemma_split(b, p, x + t, m);
                lemma_split(b, p, x, t);
                assert(b[p] == x[0]) by {
                    assert(b.subrange(p, p + 1)[0] == x[0]);
                }
                lemma_u64_read(b, p + 1, s.t);
                lemma_lists_at(b, p + 9, s.m);
                lemma_cut_lists(b, p + 9 + m.len(), s.v);
            }
        },
    }
}

/// A model payload cut short anywhere fails to decode: every strict prefix of
/// what `encode_model` wrote is an error, never a model with fewer or shorter
/// parameters.
pub proof fn lemma_truncated_model_rejected(m: ModelView, k: int)
    requires
        model_fits(m),
        0 <= k < encode_model_spec(m).len(),
    ensures
        decode_model_spec(encode_model_spec(m).subrange(0, k)) is Err,
{
    lemma_le_roundtrips();
    let b = encode_model_spec(m);
    let c = b.subrange(0, k);
    let a = str_bytes(m.name);
    let v = spec_u32_to_le_bytes(m.version);
    let n = spec_u32_to_le_bytes(m.params.len() as u32);
    let ps = m.params.map_values(|t: TensorView| tensor_bytes(t)).flatten();
    let o = opt_bytes(m.opt);
    assert(c.subrange(0, k) =~= b.subrange(0, k));
    assert(cut_at(c, 0, a + v + n + ps + o));
    lemma_cut_split(c, 0, a + v + n + ps, o);
    if c.len() < (a + v + n + ps).len() {
        lemma_cut_split(c, 0, a + v + n, ps);
        if c.len() < (a + v + n).len() {
            lemma_cut_split(c, 0, a + v, n);
            if c.len() < (a + v).len() {
                lemma_cut_split(c, 0, a, v);
                if c.len() < a.len() {
                    lemma_cut_str(c, 0, m.name);
                } else {
                    lemma_str_at(c, 0, m.name);
                }
            } else {
                lemma_split(c, 0, a, v);
                lemma_str_at(c, 0, m.name);
                lemma_u32_read(c, a.len() as int, m.version);
            }
        } else {
            lemma_split(c, 0, a + v, n);
            lemma_split(c, 0, a, v);
            lemma_str_at(c, 0, m.name);
            lemma_u32_read(c, a.len() as int, m.version);
            lemma_u32_read(c, a.len() + 4int, m.params.len() as u32);
            lemma_cut_tensors(c, a.len() + 8int, m.params);
        }
    } else {
        lemma_split(c, 0, a + v + n, ps);
        lemma_split(c, 0, a + v, n);
        lemma_split(c, 0, a, v);
        lemma_str_at(c, 0, m.name);
        lemma_u32_read(c, a.len() as int, m.version);
        lemma_u32_read(c, a.len() + 4int, m.params.len() as u32);
        lemma_tensors_at(c, a.len() + 8int, m.params);
        lemma_cut_opt(c, a.len() + 8int + ps.len(), m.opt);
    }
}

} // verus!
