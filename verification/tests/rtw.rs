// RTW (.rtw) container and payload encode/decode round trips.
use rtorch::payload::{self as rtw_payload, MemoryFragment, Memory, Model, NamedTensor, OptState};
use rtorch::rtw;
use rtorch::wire::{Field, RtwError};

fn f32_bytes(v: &[f32]) -> Vec<u8> {
    v.iter().flat_map(|x| x.to_le_bytes()).collect()
}

fn bits(v: &[f32]) -> Vec<u32> {
    v.iter().map(|x| x.to_bits()).collect()
}

fn floats(v: &[u32]) -> Vec<f32> {
    v.iter().map(|x| f32::from_bits(*x)).collect()
}

#[test]
fn result_fp32_roundtrip() {
    let data = f32_bytes(&[1.0, -2.5, 3.75, 0.0, 1e-6, 42.0]);
    let rtw = rtw::Rtw {
        kind: rtw::KIND_RESULT,
        dtype: rtw::DTYPE_FP32,
        shape: vec![2, 3],
        data,
        kernel: None,
    };
    let bytes = rtw::encode(&rtw);
    let dec = rtw::decode(&bytes).expect("decode");
    assert_eq!(dec.kind, rtw::KIND_RESULT);
    assert_eq!(dec.dtype, rtw::DTYPE_FP32);
    assert_eq!(dec.shape, vec![2, 3]);
    assert_eq!(dec.data, rtw.data);
    assert_eq!(dec.kernel, None);
    assert_eq!(dec.count(), 6);
}

#[test]
fn kernel_roundtrip_keeps_source() {
    let src = b"unsigned long long rtorch_output_size(...){...}".to_vec();
    let rtw = rtw::Rtw {
        kind: rtw::KIND_KERNEL,
        dtype: rtw::DTYPE_BYTES,
        shape: vec![],
        data: vec![],
        kernel: Some(src.clone()),
    };
    let bytes = rtw::encode(&rtw);
    let dec = rtw::decode(&bytes).expect("decode");
    assert_eq!(dec.kind, rtw::KIND_KERNEL);
    assert_eq!(dec.kernel, Some(src));
}

#[test]
fn model_kind_roundtrip() {
    let data = f32_bytes(&[0.1, 0.2, 0.3, 0.4]);
    let rtw = rtw::Rtw {
        kind: rtw::KIND_MODEL,
        dtype: rtw::DTYPE_FP32,
        shape: vec![4],
        data,
        kernel: None,
    };
    let bytes = rtw::encode(&rtw);
    let dec = rtw::decode(&bytes).expect("decode");
    assert_eq!(dec.kind, rtw::KIND_MODEL);
    assert_eq!(dec.shape, vec![4]);
    assert_eq!(dec.count(), 4);
}

#[test]
fn dtype_width_and_name() {
    assert_eq!(rtw::dtype_width(rtw::DTYPE_FP32), 4);
    assert_eq!(rtw::dtype_width(rtw::DTYPE_FP16), 2);
    assert_eq!(rtw::dtype_width(rtw::DTYPE_FP8), 1);
    assert_eq!(rtw::dtype_width(rtw::DTYPE_INT32), 4);
    assert_eq!(rtw::dtype_name(rtw::DTYPE_FP32), "fp32");
}

#[test]
fn rejects_bad_magic() {
    let bad = b"NOTRTW............".to_vec();
    assert!(rtw::decode(&bad).is_err());
}

#[test]
fn rejects_truncated() {
    let data = f32_bytes(&[1.0, 2.0]);
    let rtw = rtw::Rtw {
        kind: rtw::KIND_RESULT,
        dtype: rtw::DTYPE_FP32,
        shape: vec![2],
        data,
        kernel: None,
    };
    let bytes = rtw::encode(&rtw);
    // Truncate deep into the payload region: data_len is already read, but the
    // declared data region is now short -> decode returns an error, not a panic.
    let cut = bytes.len() / 2;
    let mut t = bytes[..cut].to_vec();
    assert!(rtw::decode(&t).is_err());
    // Even a bare header must return Err (not panic).
    t = bytes[..8].to_vec();
    assert!(rtw::decode(&t).is_err());
}

#[test]
fn model_roundtrip_params_and_opt() {
    let m = Model {
        name: "test-net".into(),
        version: 3,
        params: vec![
            NamedTensor {
                name: "W".into(),
                shape: vec![2, 3],
                dtype: rtw::DTYPE_FP32,
                data: bits(&[1.0, 2.0, 3.0, 4.0, 5.0, 6.0]),
            },
            NamedTensor {
                name: "b".into(),
                shape: vec![3],
                dtype: rtw::DTYPE_FP32,
                data: bits(&[0.1, 0.2, 0.3]),
            },
        ],
        opt: Some(OptState {
            m: vec![bits(&[1.0, 2.0]), bits(&[3.0])],
            v: vec![bits(&[0.5]), bits(&[0.6, 0.7, 0.8])],
            t: 42,
        }),
    };
    let bytes = rtw::encode_model(&m);
    let d = rtw::decode_model(&bytes).expect("decode model");
    assert_eq!(d.name, "test-net");
    assert_eq!(d.version, 3);
    assert_eq!(d.params.len(), 2);
    assert_eq!(d.params[0].name, "W");
    assert_eq!(d.params[0].shape, vec![2, 3]);
    assert_eq!(floats(&d.params[0].data), vec![1.0, 2.0, 3.0, 4.0, 5.0, 6.0]);
    assert_eq!(floats(&d.params[1].data), vec![0.1, 0.2, 0.3]);
    let o = d.opt.unwrap();
    assert_eq!(o.t, 42);
    let m_f: Vec<Vec<f32>> = o.m.iter().map(|l| floats(l)).collect();
    let v_f: Vec<Vec<f32>> = o.v.iter().map(|l| floats(l)).collect();
    assert_eq!(m_f, vec![vec![1.0, 2.0], vec![3.0]]);
    assert_eq!(v_f, vec![vec![0.5], vec![0.6, 0.7, 0.8]]);
}

#[test]
fn model_in_rtw_container_roundtrips() {
    let m = Model {
        name: "checkpoint".into(),
        version: 1,
        params: vec![NamedTensor {
            name: "A".into(),
            shape: vec![2, 2],
            dtype: rtw::DTYPE_FP32,
            data: bits(&[1.0, 0.0, 0.0, 1.0]),
        }],
        opt: None,
    };
    let rtw = rtw::model_rtw(&m);
    assert_eq!(rtw.kind, rtw::KIND_MODEL);
    let bytes = rtw::encode(&rtw);
    let dec = rtw::decode(&bytes).expect("decode container");
    assert_eq!(dec.kind, rtw::KIND_MODEL);
    let dm = rtw::decode_model(&dec.data).expect("decode model payload");
    assert_eq!(dm.name, "checkpoint");
    assert_eq!(floats(&dm.params[0].data), vec![1.0, 0.0, 0.0, 1.0]);
}

#[test]
fn memory_roundtrip_fragments() {
    let mem = Memory {
        fragments: vec![
            MemoryFragment {
                id: 7,
                state: bits(&[0.1, 0.2, 0.3]),
                strength: 0.9f32.to_bits(),
            },
            MemoryFragment {
                id: 9,
                state: bits(&[-1.0, 2.5]),
                strength: 0.4f32.to_bits(),
            },
        ],
    };
    let bytes = rtw::encode_memory(&mem);
    let d = rtw::decode_memory(&bytes).expect("decode memory");
    assert_eq!(d.fragments.len(), 2);
    assert_eq!(d.fragments[0].id, 7);
    assert_eq!(floats(&d.fragments[0].state), vec![0.1, 0.2, 0.3]);
    assert!((f32::from_bits(d.fragments[0].strength) - 0.9).abs() < 1e-9);
    assert_eq!(floats(&d.fragments[1].state), vec![-1.0, 2.5]);

    let rtww = rtw::memory_rtw(&mem);
    let bytes2 = rtw::encode(&rtww);
    let dec = rtw::decode(&bytes2).expect("decode memory container");
    assert_eq!(dec.kind, rtw::KIND_MEMORY);
    let dm = rtw::decode_memory(&dec.data).expect("decode memory payload");
    assert_eq!(dm.fragments.len(), 2);
}

#[test]
fn truncated_memory_returns_err() {
    // A memory payload truncated mid-way must return Err (not panic/abort).
    let mem = Memory {
        fragments: vec![
            MemoryFragment { id: 1, state: bits(&[0.1, 0.2]), strength: 0.5f32.to_bits() },
            MemoryFragment { id: 2, state: bits(&[0.3]), strength: 0.7f32.to_bits() },
        ],
    };
    let mut bytes = rtw::encode_memory(&mem);
    // Chop the last 6 bytes (strength + state tail) so the count no longer holds.
    bytes.truncate(bytes.len() - 6);
    let r = rtw::decode_memory(&bytes);
    assert!(r.is_err(), "truncated memory must be an error");
}

#[test]
fn hostile_count_returns_err_not_abort() {
    // A payload whose leading count is huge (0xFFFFFFFF) must return Err, not
    // drive a multi-GB allocation.
    let hostile = [0xFFu8; 16];
    assert!(rtw::decode_memory(&hostile).is_err());
    assert!(rtw::decode_model(&hostile).is_err());
    assert!(rtw::decode(&hostile).is_err());
}

// ---------------------------------------------------------------------------
// Exact layout and every error variant.
// ---------------------------------------------------------------------------

#[test]
fn encode_layout_is_exact() {
    let r = rtw::Rtw { kind: 1, dtype: 5, shape: vec![7], data: vec![0xAA], kernel: Some(vec![0x42, 0x43]) };
    let b = rtw::encode(&r);
    let want: Vec<u8> = [
        &b"RTW1"[..],
        &[1, 0],
        &[1, 5],
        &[1, 0, 0, 0],
        &[7, 0, 0, 0],
        &[1, 0, 0, 0, 0, 0, 0, 0],
        &[0xAA],
        &[1],
        &[2, 0, 0, 0, 0, 0, 0, 0],
        &[0x42, 0x43],
        &b"RTEND"[..],
    ]
    .concat();
    assert_eq!(b, want);
    let none = rtw::Rtw { kind: 0, dtype: 0, shape: vec![], data: vec![], kernel: None };
    let b2 = rtw::encode(&none);
    assert_eq!(b2.len(), 4 + 2 + 2 + 4 + 8 + 1 + 5);
    assert_eq!(b2[20], 0);
}

#[test]
fn decode_reports_each_error() {
    let good = rtw::encode(&rtw::Rtw { kind: 0, dtype: 0, shape: vec![3, 4], data: vec![1, 2, 3, 4], kernel: Some(vec![9; 3]) });
    assert_eq!(rtw::decode(&good[..11]).unwrap_err(), RtwError::BadMagic);
    let mut v2 = good.clone();
    v2[4] = 2;
    assert_eq!(rtw::decode(&v2).unwrap_err(), RtwError::UnsupportedVersion(2));
    // rank 2 needs 8 shape bytes after the 12-byte header
    assert_eq!(rtw::decode(&good[..15]).unwrap_err(), RtwError::Short(Field::Shape));
    assert_eq!(rtw::decode(&good[..22]).unwrap_err(), RtwError::Short(Field::U64));
    assert_eq!(rtw::decode(&good[..30]).unwrap_err(), RtwError::Short(Field::Data));
    assert_eq!(rtw::decode(&good[..32]).unwrap_err(), RtwError::Short(Field::Flags));
    assert_eq!(rtw::decode(&good[..35]).unwrap_err(), RtwError::Short(Field::U64));
    assert_eq!(rtw::decode(&good[..42]).unwrap_err(), RtwError::Short(Field::Kernel));
    // without the end marker the container still decodes
    let d = rtw::decode(&good[..44]).expect("tail is not inspected");
    assert_eq!(d.kernel, Some(vec![9; 3]));
    assert_eq!(d.shape, vec![3, 4]);
}

#[test]
fn payload_errors_bad_utf8_and_f32_block() {
    // name block holding 0xFF, which is not UTF-8
    let bad_name = [1u8, 0, 0, 0, 0xFF];
    assert_eq!(rtw::decode_model(&bad_name).unwrap_err(), RtwError::BadUtf8);
    // memory: one fragment whose state block has 3 bytes
    let mut m = vec![1u8, 0, 0, 0];
    m.extend_from_slice(&5u64.to_le_bytes());
    m.extend_from_slice(&[3, 0, 0, 0, 1, 2, 3]);
    assert_eq!(rtw::decode_memory(&m).unwrap_err(), RtwError::BadF32Block);
    // the strength is missing
    let mut s = vec![1u8, 0, 0, 0];
    s.extend_from_slice(&5u64.to_le_bytes());
    s.extend_from_slice(&[0, 0, 0, 0, 1]);
    assert_eq!(rtw::decode_memory(&s).unwrap_err(), RtwError::Short(Field::Strength));
    // model without the optimizer flag
    let mut o = vec![1u8, 0, 0, 0, b'x'];
    o.extend_from_slice(&[1, 0, 0, 0, 0, 0, 0, 0]);
    assert_eq!(rtw::decode_model(&o).unwrap_err(), RtwError::Short(Field::OptFlag));
    // a model whose only param lacks its dtype byte
    let mut t = vec![0u8, 0, 0, 0, 1, 0, 0, 0, 1, 0, 0, 0];
    t.extend_from_slice(&[1, 0, 0, 0, b'w', 0, 0, 0, 0]);
    assert_eq!(rtw::decode_model(&t).unwrap_err(), RtwError::Short(Field::Dtype));
    // a block length past the end
    assert_eq!(rtw::decode_model(&[9, 0, 0, 0, b'a']).unwrap_err(), RtwError::Short(Field::Bytes));
}

#[test]
fn payload_layout_is_exact() {
    let m = Memory { fragments: vec![MemoryFragment { id: 2, state: vec![0x01020304], strength: 0x3f800000 }] };
    let b = rtw::encode_memory(&m);
    let want: Vec<u8> = [
        &[1u8, 0, 0, 0][..],
        &[2, 0, 0, 0, 0, 0, 0, 0],
        &[4, 0, 0, 0, 4, 3, 2, 1],
        &[0, 0, 0x80, 0x3f],
    ]
    .concat();
    assert_eq!(b, want);
    let model = Model { name: "ñ".into(), version: 5, params: vec![], opt: None };
    let mb = rtw::encode_model(&model);
    assert_eq!(mb, vec![2, 0, 0, 0, 0xC3, 0xB1, 5, 0, 0, 0, 0, 0, 0, 0, 0]);
    let back = rtw::decode_model(&mb).unwrap();
    assert_eq!(back.name, "ñ");
    assert!(back.opt.is_none());
    let _ = rtw_payload::model_rtw(&model);
}

#[test]
fn count_divides_by_dtype_width() {
    let r = rtw::Rtw { kind: 0, dtype: rtw::DTYPE_FP16, shape: vec![], data: vec![0; 7], kernel: None };
    assert_eq!(r.count(), 3);
    let u = rtw::Rtw { kind: 0, dtype: 99, shape: vec![], data: vec![0; 7], kernel: None };
    assert_eq!(u.count(), 7);
    assert_eq!(rtw::dtype_name(rtw::DTYPE_FP8), "fp8(E4M3)");
    assert_eq!(rtw::dtype_name(rtw::DTYPE_FP4), "fp4(E2M1)");
    assert_eq!(rtw::dtype_name(rtw::DTYPE_INT32), "int32");
    assert_eq!(rtw::dtype_name(rtw::DTYPE_FP16), "fp16");
    assert_eq!(rtw::dtype_name(77), "bytes");
    assert_eq!(rtw::dtype_width(rtw::DTYPE_FP4), 1);
    assert_eq!(rtw::dtype_width(200), 1);
}
